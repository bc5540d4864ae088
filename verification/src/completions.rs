//! The completion cache: for each executable name, the desktop entry that
//! runs it, so that `open --with nvim` finds `org.neovim.nvim.desktop`. It is
//! kept in a file of lines `EXECUTABLE<TAB>NAME<TAB>PATH`.
use vstd::prelude::*;

use crate::desktop_entry::{self, DesktopEntry};
use crate::paths;
use crate::text::{self, chars_of, extend_chars, lines_of, split_chars, string_of};

verus! {

/// An executable name, the name of its entry and the path of the entry file.
pub type CacheLine = (Seq<char>, Seq<char>, Seq<char>);

/// The map that recording the lines in order builds: a later line for an
/// executable replaces an earlier one.
pub open spec fn cache_map(ls: Seq<CacheLine>) -> Map<Seq<char>, (Seq<char>, Seq<char>)>
    decreases ls.len(),
{
    if ls.len() == 0 {
        Map::empty()
    } else {
        let l = ls.last();
        cache_map(ls.drop_last()).insert(l.0, (l.1, l.2))
    }
}

pub open spec fn cache_keys_unique(ls: Seq<CacheLine>) -> bool {
    forall|i: int, j: int| 0 <= i < j < ls.len() ==> ls[i].0 != ls[j].0
}

proof fn lemma_cache_map_unique(ls: Seq<CacheLine>)
    requires
        cache_keys_unique(ls),
    ensures
        forall|k: Seq<char>|
            #[trigger] cache_map(ls).contains_key(k) <==> exists|i: int| 0 <= i < ls.len() && ls[i].0 == k,
        forall|i: int| 0 <= i < ls.len() ==> #[trigger] cache_map(ls)[ls[i].0] == (ls[i].1, ls[i].2),
    decreases ls.len(),
{
    if ls.len() > 0 {
        let init = ls.drop_last();
        lemma_cache_map_unique(init);
        assert forall|k: Seq<char>|
            #[trigger] cache_map(ls).contains_key(k) <==> exists|i: int| 0 <= i < ls.len() && ls[i].0 == k by {
            if cache_map(ls).contains_key(k) && k != ls.last().0 {
                assert(cache_map(init).contains_key(k));
                let i = choose|i: int| 0 <= i < init.len() && init[i].0 == k;
                assert(ls[i].0 == k);
            }
            if exists|i: int| 0 <= i < ls.len() && ls[i].0 == k {
                let i = choose|i: int| 0 <= i < ls.len() && ls[i].0 == k;
                if i < ls.len() - 1 {
                    assert(init[i].0 == k);
                    assert(cache_map(init).contains_key(k));
                }
            }
        }
        assert forall|i: int| 0 <= i < ls.len() implies #[trigger] cache_map(ls)[ls[i].0] == (ls[i].1, ls[i].2) by {
            if i < ls.len() - 1 {
                assert(init[i] == ls[i]);
                assert(ls[i].0 != ls.last().0);
                assert(cache_map(init)[init[i].0] == (init[i].1, init[i].2));
            }
        }
    }
}

/// The executables that the completion cache knows.
pub struct EntryCache {
    lines: Vec<(String, String, String)>,
}

impl EntryCache {
    /// The lines in the order the cache keeps them.
    pub closed spec fn lines_view(self) -> Seq<CacheLine> {
        self.lines@.map_values(|l: (String, String, String)| (l.0@, l.1@, l.2@))
    }

    #[verifier::type_invariant]
    closed spec fn unique(self) -> bool {
        cache_keys_unique(self.lines_view())
    }

    /// For each executable, the name and the path of its entry.
    pub open spec fn model(self) -> Map<Seq<char>, (Seq<char>, Seq<char>)> {
        cache_map(self.lines_view())
    }

    /// An empty cache.
    pub fn new() -> (res: EntryCache)
        ensures
            res.lines_view() == Seq::<CacheLine>::empty(),
            res.model() == Map::<Seq<char>, (Seq<char>, Seq<char>)>::empty(),
    {
        let res = EntryCache { lines: Vec::new() };
        assert(res.lines_view() =~= Seq::<CacheLine>::empty());
        res
    }

    fn find(&self, exec: &Vec<char>) -> (res: Option<usize>)
        ensures
            match res {
                Some(i) => i < self.lines_view().len() && self.lines_view()[i as int].0 == exec@,
                None => forall|i: int| 0 <= i < self.lines_view().len() ==> self.lines_view()[i].0 != exec@,
            },
    {
        let mut i: usize = 0;
        while i < self.lines.len()
            invariant
                i <= self.lines_view().len(),
                self.lines_view().len() == self.lines@.len(),
                forall|j: int| 0 <= j < i ==> self.lines_view()[j].0 != exec@,
            decreases self.lines@.len() - i,
        {
            let e = chars_of(self.lines[i].0.as_str());
            if text::chars_eq(&e, exec) {
                return Some(i);
            }
            i = i + 1;
        }
        None
    }

    /// The path of the entry that runs `exec`, if the cache knows it.
    pub fn get(&self, exec: &str) -> (res: Option<&String>)
        ensures
            match res {
                Some(p) => self.model().contains_key(exec@) && self.model()[exec@].1 == p@,
                None => !self.model().contains_key(exec@),
            },
    {
        proof {
            use_type_invariant(self);
            lemma_cache_map_unique(self.lines_view());
        }
        let e = chars_of(exec);
        match self.find(&e) {
            Some(i) => Some(&self.lines[i].2),
            None => None,
        }
    }

    /// Records that `exec` is run by the entry `name` at `path`, replacing
    /// what was recorded for `exec`.
    pub fn insert(&mut self, exec: String, name: String, path: String)
        ensures
            final(self).model() == old(self).model().insert(exec@, (name@, path@)),
    {
        proof {
            use_type_invariant(&*self);
        }
        let ghost old_lines = self.lines_view();
        let ghost kv: CacheLine = (exec@, name@, path@);
        let e = chars_of(exec.as_str());
        match self.find(&e) {
            Some(i) => {
                let mut lines: Vec<(String, String, String)> = Vec::new();
                std::mem::swap(&mut lines, &mut self.lines);
                lines.set(i, (exec, name, path));
                proof {
                    let nl = lines@.map_values(|l: (String, String, String)| (l.0@, l.1@, l.2@));
                    assert(nl =~= old_lines.update(i as int, kv));
                    lemma_cache_map_unique(old_lines);
                    lemma_cache_map_unique(nl);
                    let want = cache_map(old_lines).insert(kv.0, (kv.1, kv.2));
                    assert forall|k: Seq<char>| #[trigger] cache_map(nl).contains_key(k) <==> want.contains_key(k) by {
                        if cache_map(old_lines).contains_key(k) {
                            let j = choose|j: int| 0 <= j < old_lines.len() && old_lines[j].0 == k;
                            assert(nl[j].0 == k);
                        }
                        if cache_map(nl).contains_key(k) {
                            let j = choose|j: int| 0 <= j < nl.len() && nl[j].0 == k;
                            if j != i {
                                assert(old_lines[j].0 == k);
                            }
                        }
                    }
                    assert forall|k: Seq<char>| #[trigger] cache_map(nl).contains_key(k) implies cache_map(nl)[k]
                        == want[k] by {
                        let j = choose|j: int| 0 <= j < nl.len() && nl[j].0 == k;
                        assert(cache_map(nl)[nl[j].0] == (nl[j].1, nl[j].2));
                        if j != i {
                            assert(cache_map(old_lines)[old_lines[j].0] == (old_lines[j].1, old_lines[j].2));
                        }
                    }
                    assert(cache_map(nl) =~= want);
                }
                self.lines = lines;
            },
            None => {
                let mut lines: Vec<(String, String, String)> = Vec::new();
                std::mem::swap(&mut lines, &mut self.lines);
                lines.push((exec, name, path));
                proof {
                    let nl = lines@.map_values(|l: (String, String, String)| (l.0@, l.1@, l.2@));
                    assert(nl =~= old_lines.push(kv));
                    assert(nl.drop_last() =~= old_lines);
                }
                self.lines = lines;
            },
        }
    }
}


/// The line of the cache file for one executable.
pub open spec fn cache_line_text(l: CacheLine) -> Seq<char> {
    l.0 + seq!['\t'] + l.1 + seq!['\t'] + l.2
}

/// The text of the cache file.
pub open spec fn cache_text(ls: Seq<CacheLine>) -> Seq<char> {
    text::concat_lines(ls.map_values(|l: CacheLine| cache_line_text(l)))
}

/// What a line of the cache file says: its first three fields separated by
/// tabs, where the executable and the path are not empty; `None` for a
/// malformed line.
pub open spec fn cache_line_of(line: Seq<char>) -> Option<CacheLine> {
    let f = text::split(line, '\t');
    if f.len() >= 3 && f[0].len() > 0 && f[2].len() > 0 {
        Some((f[0], f[1], f[2]))
    } else {
        None
    }
}

/// The lines of a cache file, or `None` when one of them is malformed.
pub open spec fn parse_cache_lines(ls: Seq<Seq<char>>) -> Option<Seq<CacheLine>>
    decreases ls.len(),
{
    if ls.len() == 0 {
        Some(Seq::<CacheLine>::empty())
    } else {
        match parse_cache_lines(ls.drop_last()) {
            None => None,
            Some(acc) => match cache_line_of(ls.last()) {
                None => None,
                Some(l) => Some(acc.push(l)),
            },
        }
    }
}

/// A malformed line spoils the whole file.
proof fn lemma_parse_none_extends(ls: Seq<Seq<char>>, n: int)
    requires
        0 <= n <= ls.len(),
        parse_cache_lines(ls.take(n)) is None,
    ensures
        parse_cache_lines(ls) is None,
    decreases ls.len(),
{
    if n == ls.len() {
        assert(ls.take(n) =~= ls);
    } else {
        assert(ls.drop_last().take(n) =~= ls.take(n));
        lemma_parse_none_extends(ls.drop_last(), n);
    }
}

/// What reading a cache file gives: `None` when it is malformed and must be
/// made again.
pub open spec fn parse_cache(content: Seq<char>) -> Option<Map<Seq<char>, (Seq<char>, Seq<char>)>> {
    match parse_cache_lines(text::lines(content)) {
        Some(ls) => Some(cache_map(ls)),
        None => None,
    }
}

/// The lines that the loaded entries give, in order: each entry that loaded,
/// is displayed and has an executable name gives that name, its name and its
/// path.
pub open spec fn cache_lines_of(loaded: Seq<(Option<desktop_entry::EntryView>, Seq<char>)>) -> Seq<CacheLine>
    decreases loaded.len(),
{
    if loaded.len() == 0 {
        Seq::<CacheLine>::empty()
    } else {
        let acc = cache_lines_of(loaded.drop_last());
        let (o, path) = loaded.last();
        match o {
            None => acc,
            Some(e) => if e.no_display {
                acc
            } else {
                match desktop_entry::executable_name_of(e.command) {
                    None => acc,
                    Some(x) => acc.push((x, e.name, path)),
                }
            },
        }
    }
}

pub open spec fn loaded_with_paths(v: Seq<(Option<DesktopEntry>, String)>) -> Seq<(Option<desktop_entry::EntryView>, Seq<char>)> {
    v.map_values(
        |p: (Option<DesktopEntry>, String)|
            (
                match p.0 {
                    Some(e) => Some(e@),
                    None => None,
                },
                p.1@,
            ),
    )
}

/// The cache of the entries in `loaded` (each with the path of its file;
/// `None` for one that could not be loaded).
pub fn update_desktop_entry_cache(loaded: &Vec<(Option<DesktopEntry>, String)>) -> (res: EntryCache)
    ensures
        res.model() == cache_map(cache_lines_of(loaded_with_paths(loaded@))),
        cache_keys_unique(res.lines_view()),
{
    let mut cache = EntryCache::new();
    let ghost all = loaded_with_paths(loaded@);
    let mut i: usize = 0;
    while i < loaded.len()
        invariant
            i <= loaded@.len(),
            all == loaded_with_paths(loaded@),
            cache.model() == cache_map(cache_lines_of(all.take(i as int))),
        decreases loaded@.len() - i,
    {
        assert(all.take(i + 1).drop_last() =~= all.take(i as int));
        assert(all.take(i + 1).last() == all[i as int]);
        let (o, path) = &loaded[i];
        assert(all[i as int].1 == path@);
        assert(all[i as int].0 == match o {
            Some(e) => Some(e@),
            None => None::<desktop_entry::EntryView>,
        });
        match o {
            None => {},
            Some(e) => {
                if !e.no_display() {
                    match e.executable_name() {
                        None => {},
                        Some(x) => {
                            proof {
                                let acc = cache_lines_of(all.take(i as int));
                                let l: CacheLine = (x@, e@.name, path@);
                                assert(acc.push(l).drop_last() =~= acc);
                            }
                            cache.insert(x, e.name().clone(), path.clone());
                        },
                    }
                }
            },
        }
        i = i + 1;
    }
    assert(all.take(loaded@.len() as int) =~= all);
    proof {
        use_type_invariant(&cache);
    }
    cache
}

/// Appends the line `exec<TAB>name<TAB>path` and its `'\n'`.
fn write_line(out: &mut Vec<char>, line: &(String, String, String))
    ensures
        final(out)@ == old(out)@ + cache_line_text((line.0@, line.1@, line.2@)).push('\n'),
{
    let a = chars_of(line.0.as_str());
    let b = chars_of(line.1.as_str());
    let c = chars_of(line.2.as_str());
    extend_chars(out, &a);
    out.push('\t');
    extend_chars(out, &b);
    out.push('\t');
    extend_chars(out, &c);
    out.push('\n');
    assert(final(out)@ =~= old(out)@ + cache_line_text((line.0@, line.1@, line.2@)).push('\n'));
}

impl EntryCache {
    /// The text of the cache file: a line `EXECUTABLE<TAB>NAME<TAB>PATH` per
    /// executable, each executable once, each line what the cache holds for
    /// its executable. Where every line is storable, reading the text back
    /// gives the same cache.
    pub fn to_text(&self) -> (res: String)
        ensures
            res@ == cache_text(self.lines_view()),
            cache_keys_unique(self.lines_view()),
            forall|k: Seq<char>|
                #[trigger] self.model().contains_key(k) <==> exists|i: int|
                    0 <= i < self.lines_view().len() && self.lines_view()[i].0 == k,
            forall|i: int|
                0 <= i < self.lines_view().len() ==> #[trigger] self.model()[self.lines_view()[i].0] == (
                    self.lines_view()[i].1,
                    self.lines_view()[i].2,
                ),
            (forall|i: int| 0 <= i < self.lines_view().len() ==> storable_line(#[trigger] self.lines_view()[i]))
                ==> parse_cache(res@) == Some(self.model()),
    {
        proof {
            use_type_invariant(self);
            lemma_cache_map_unique(self.lines_view());
            if forall|i: int| 0 <= i < self.lines_view().len() ==> storable_line(#[trigger] self.lines_view()[i]) {
                lemma_cache_text_parses_back(self.lines_view());
            }
        }
        let ghost ls = self.lines_view();
        let mut out: Vec<char> = Vec::new();
        let mut i: usize = 0;
        assert(ls.take(0).map_values(|l: CacheLine| cache_line_text(l)) =~= Seq::<Seq<char>>::empty());
        while i < self.lines.len()
            invariant
                i <= ls.len(),
                ls == self.lines_view(),
                ls.len() == self.lines@.len(),
                out@ == cache_text(ls.take(i as int)),
            decreases ls.len() - i,
        {
            write_line(&mut out, &self.lines[i]);
            proof {
                let prev = ls.take(i as int).map_values(|l: CacheLine| cache_line_text(l));
                let next = ls.take(i + 1).map_values(|l: CacheLine| cache_line_text(l));
                assert(next.drop_last() =~= prev);
                assert(next.last() == cache_line_text(ls[i as int]));
            }
            i = i + 1;
        }
        assert(ls.take(ls.len() as int) =~= ls);
        string_of(out.as_slice())
    }

    /// Reads the text of a cache file; `None` when a line is malformed.
    pub fn parse(content: &str) -> (res: Option<EntryCache>)
        ensures
            match res {
                Some(c) => parse_cache(content@) == Some(c.model()),
                None => parse_cache(content@) == None::<Map<Seq<char>, (Seq<char>, Seq<char>)>>,
            },
    {
        let cs = chars_of(content);
        let ls = lines_of(&cs);
        let ghost all = text::lines(content@);
        let ghost mut acc = Seq::<CacheLine>::empty();
        let mut cache = EntryCache::new();
        let mut i: usize = 0;
        while i < ls.len()
            invariant
                i <= ls@.len(),
                ls@.len() == all.len(),
                forall|k: int| 0 <= k < ls@.len() ==> #[trigger] ls@[k]@ == all[k],
                all == text::lines(content@),
                parse_cache_lines(all.take(i as int)) == Some(acc),
                cache.model() == cache_map(acc),
            decreases ls@.len() - i,
        {
            assert(all.take(i + 1).drop_last() =~= all.take(i as int));
            assert(all.take(i + 1).last() == ls@[i as int]@);
            let fields = split_chars(&ls[i], '\t');
            if fields.len() >= 3 && fields[0].len() > 0 && fields[2].len() > 0 {
                let exec = string_of(fields[0].as_slice());
                let name = string_of(fields[1].as_slice());
                let path = string_of(fields[2].as_slice());
                let ghost l: CacheLine = (exec@, name@, path@);
                proof {
                    assert(acc.push(l).drop_last() =~= acc);
                    acc = acc.push(l);
                }
                cache.insert(exec, name, path);
            } else {
                proof {
                    assert(cache_line_of(ls@[i as int]@) is None);
                    assert(parse_cache_lines(all.take(i + 1)) is None);
                    lemma_parse_none_extends(all, i as int + 1);
                }
                assert(parse_cache_lines(all) is None);
                return None;
            }
            i = i + 1;
        }
        assert(all.take(ls@.len() as int) =~= all);
        Some(cache)
    }
}

/// Whether the cache is older than one of the directories it was made from:
/// always when there is no cache; a directory whose time is unknown counts
/// as not newer.
pub open spec fn needs_regen(cache_modified: Option<i128>, sources_modified: Seq<Option<i128>>) -> bool {
    match cache_modified {
        None => true,
        Some(c) => exists|i: int| 0 <= i < sources_modified.len() && (#[trigger] sources_modified[i] matches Some(t) && t > c),
    }
}

/// What became of the completion cache.
pub enum CacheState {
    /// It is usable as it is.
    Fresh(EntryCache),
    /// It is missing or older than a directory of desktop entries.
    Outdated,
    /// It could not be read.
    Unreadable,
    /// A line of it is malformed.
    Malformed,
}

/// Decides whether the completion cache can be used as it is: it is read
/// from `cached` (the text of the cache file, when it could be read) when it
/// is at least as new as the directories of desktop entries and well formed.
/// Any other state means that the cache must be made again.
pub fn update_completions(
    cache_modified: Option<i128>,
    sources_modified: &Vec<Option<i128>>,
    cached: Option<&str>,
) -> (res: CacheState)
    ensures
        ({
            if needs_regen(cache_modified, sources_modified@) {
                res is Outdated
            } else {
                match cached {
                    None => res is Unreadable,
                    Some(text) => match parse_cache(text@) {
                        None => res is Malformed,
                        Some(m) => res matches CacheState::Fresh(c) && c.model() == m,
                    },
                }
            }
        }),
{
    let regen = match cache_modified {
        None => true,
        Some(c) => {
            let mut newer = false;
            let mut i: usize = 0;
            while i < sources_modified.len()
                invariant
                    i <= sources_modified@.len(),
                    newer <==> exists|j: int| 0 <= j < i && (#[trigger] sources_modified@[j] matches Some(t) && t > c),
                decreases sources_modified@.len() - i,
            {
                match sources_modified[i] {
                    Some(t) => {
                        if t > c {
                            newer = true;
                        }
                    },
                    None => {},
                }
                i = i + 1;
            }
            newer
        },
    };
    if regen {
        return CacheState::Outdated;
    }
    match cached {
        None => CacheState::Unreadable,
        Some(text) => match EntryCache::parse(text) {
            Some(c) => CacheState::Fresh(c),
            None => CacheState::Malformed,
        },
    }
}

/// The directories that desktop entries are read from: `applications` under
/// the user's data directory, then the system's two.
pub fn desktop_entry_source_dirs(data_home: &str) -> (res: Vec<String>)
    ensures
        res@.len() == 3,
        res@[0]@ == paths::join(data_home@, "applications"@),
        res@[1]@ == "/usr/share/applications"@,
        res@[2]@ == "/usr/local/share/applications"@,
{
    let mut res: Vec<String> = Vec::new();
    res.push(paths::join_path(data_home, "applications"));
    res.push("/usr/share/applications".to_owned());
    res.push("/usr/local/share/applications".to_owned());
    res
}

/// Where the completion cache is kept: `open/apps` under the user's cache directory.
pub fn desktop_entry_cache_path(cache_home: &str) -> (res: String)
    ensures
        res@ == paths::join(paths::join(cache_home@, "open"@), "apps"@),
{
    let p = paths::join_path(cache_home, "open");
    paths::join_path(p.as_str(), "apps")
}


/// A line that reads back as written: a non-empty executable and path, no
/// tab or line break in any field, and a path that does not end in `'\r'`.
pub open spec fn storable_line(l: CacheLine) -> bool {
    &&& l.0.len() > 0
    &&& !l.0.contains('\t')
    &&& !l.0.contains('\n')
    &&& !l.1.contains('\t')
    &&& !l.1.contains('\n')
    &&& l.2.len() > 0
    &&& !l.2.contains('\t')
    &&& !l.2.contains('\n')
    &&& l.2.last() != '\r'
}

proof fn lemma_line_parses_back(l: CacheLine)
    requires
        storable_line(l),
    ensures
        cache_line_of(cache_line_text(l)) == Some(l),
        text::plain_line(cache_line_text(l)),
{
    let parts = seq![l.0, l.1, l.2];
    assert(parts.drop_last() =~= seq![l.0, l.1]);
    assert(seq![l.0, l.1].drop_last() =~= seq![l.0]);
    assert(text::join(seq![l.0], '\t') == l.0);
    assert(text::join(seq![l.0, l.1], '\t') == text::join(seq![l.0], '\t').push('\t') + l.1);
    assert(text::join(parts, '\t') == text::join(seq![l.0, l.1], '\t').push('\t') + l.2);
    assert(text::join(parts, '\t') =~= cache_line_text(l));
    assert forall|k: int| 0 <= k < parts.len() implies !(#[trigger] parts[k]).contains('\t') by {}
    text::lemma_split_join(parts, '\t');
    assert forall|k: int| 0 <= k < parts.len() implies !(#[trigger] parts[k]).contains('\n') by {}
    text::lemma_join_excludes(parts, '\t', '\n');
    assert(cache_line_text(l).last() == l.2.last());
}

/// Law: the text of storable lines reads back as the map that the lines make.
pub proof fn lemma_cache_text_parses_back(ls: Seq<CacheLine>)
    requires
        forall|i: int| 0 <= i < ls.len() ==> storable_line(#[trigger] ls[i]),
    ensures
        parse_cache(cache_text(ls)) == Some(cache_map(ls)),
{
    let texts = ls.map_values(|l: CacheLine| cache_line_text(l));
    assert forall|k: int| 0 <= k < texts.len() implies text::plain_line(#[trigger] texts[k]) by {
        lemma_line_parses_back(ls[k]);
    }
    text::lemma_lines_concat_lines(texts);
    lemma_parse_lines_back(ls);
}

proof fn lemma_parse_lines_back(ls: Seq<CacheLine>)
    requires
        forall|i: int| 0 <= i < ls.len() ==> storable_line(#[trigger] ls[i]),
    ensures
        parse_cache_lines(ls.map_values(|l: CacheLine| cache_line_text(l))) == Some(ls),
    decreases ls.len(),
{
    if ls.len() > 0 {
        let init = ls.drop_last();
        assert forall|i: int| 0 <= i < init.len() implies storable_line(#[trigger] init[i]) by {
            assert(init[i] == ls[i]);
        }
        lemma_parse_lines_back(init);
        let texts = ls.map_values(|l: CacheLine| cache_line_text(l));
        assert(texts.drop_last() =~= init.map_values(|l: CacheLine| cache_line_text(l)));
        assert(storable_line(ls.last())) by {
            assert(ls[ls.len() - 1] == ls.last());
        }
        lemma_line_parses_back(ls.last());
        assert(texts.last() == cache_line_text(ls.last()));
        assert(init.push(ls.last()) =~= ls);
    }
}


/// The `i`th loaded entry gives the executable `x`: it loaded, is displayed,
/// and its command runs `x`.
pub open spec fn gives_executable(loaded: Seq<(Option<desktop_entry::EntryView>, Seq<char>)>, i: int, x: Seq<char>) -> bool {
    &&& loaded[i].0 matches Some(e)
    &&& !e.no_display
    &&& desktop_entry::executable_name_of(e.command) == Some(x)
}

/// Law: the cache made from loaded entries knows exactly the executables of
/// the entries that loaded and are displayed, whether or not they run in a
/// terminal, and maps each to the name and path of the last entry that gives
/// it.
pub proof fn lemma_cache_of_loaded(loaded: Seq<(Option<desktop_entry::EntryView>, Seq<char>)>)
    ensures
        forall|x: Seq<char>|
            #[trigger] cache_map(cache_lines_of(loaded)).contains_key(x) <==> exists|i: int|
                0 <= i < loaded.len() && gives_executable(loaded, i, x),
        forall|x: Seq<char>, i: int|
            0 <= i < loaded.len() && gives_executable(loaded, i, x) && (forall|j: int|
                i < j < loaded.len() ==> !gives_executable(loaded, j, x)) ==> #[trigger] cache_map(
                cache_lines_of(loaded),
            )[x] == (loaded[i].0->0.name, #[trigger] loaded[i].1),
    decreases loaded.len(),
{
    if loaded.len() > 0 {
        let init = loaded.drop_last();
        let last = loaded.len() - 1;
        lemma_cache_of_loaded(init);
        assert forall|i: int, x: Seq<char>| 0 <= i < init.len() implies #[trigger] gives_executable(init, i, x)
            == gives_executable(loaded, i, x) by {
            assert(init[i] == loaded[i]);
        }
        let m = cache_map(cache_lines_of(loaded));
        let m0 = cache_map(cache_lines_of(init));
        let acc = cache_lines_of(init);
        assert(loaded.drop_last() == init);
        let (o, path) = loaded.last();
        assert(loaded[last] == (o, path));
        let gives = o matches Some(e) && !e.no_display && desktop_entry::executable_name_of(e.command) is Some;
        if gives {
            let e = o->0;
            let y = desktop_entry::executable_name_of(e.command)->0;
            assert(cache_lines_of(loaded) == acc.push((y, e.name, path)));
            assert(acc.push((y, e.name, path)).drop_last() == acc);
            assert(m == m0.insert(y, (e.name, path)));
            assert(gives_executable(loaded, last, y));
            assert forall|x: Seq<char>| x != y implies !gives_executable(loaded, last, x) by {}
        } else {
            assert(cache_lines_of(loaded) == acc);
            assert forall|x: Seq<char>| !gives_executable(loaded, last, x) by {}
        }
        assert forall|x: Seq<char>| #[trigger] m.contains_key(x) <==> exists|i: int|
            0 <= i < loaded.len() && gives_executable(loaded, i, x) by {
            if exists|i: int| 0 <= i < loaded.len() && gives_executable(loaded, i, x) {
                let i = choose|i: int| 0 <= i < loaded.len() && gives_executable(loaded, i, x);
                if i < last {
                    assert(gives_executable(init, i, x));
                }
            }
            if m.contains_key(x) && !gives_executable(loaded, last, x) {
                assert(m0.contains_key(x));
                let i = choose|i: int| 0 <= i < init.len() && gives_executable(init, i, x);
                assert(gives_executable(loaded, i, x));
            }
        }
        assert forall|x: Seq<char>, i: int|
            0 <= i < loaded.len() && gives_executable(loaded, i, x) && (forall|j: int|
                i < j < loaded.len() ==> !gives_executable(loaded, j, x)) implies #[trigger] m[x] == (
            loaded[i].0->0.name,
            #[trigger] loaded[i].1,
        ) by {
            if i < last {
                assert(!gives_executable(loaded, last, x));
                assert(gives_executable(init, i, x));
                assert forall|j: int| i < j < init.len() implies !gives_executable(init, j, x) by {
                    assert(!gives_executable(loaded, j, x));
                }
                assert(m0[x] == (init[i].0->0.name, init[i].1));
                assert(init[i] == loaded[i]);
            }
        }
    }
}

} // verus!
