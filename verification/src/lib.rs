//! Verified core of `open`, a simpler alternative to xdg-open and xdg-mime:
//! parsing of desktop entries and of `mimeapps.list`, the lookup of default
//! applications, the launch plan of a desktop entry and the completion cache.
use vstd::prelude::*;

pub mod completions;
pub mod desktop_entry;
pub mod mime_apps;
pub mod mime_map;
pub mod mime_type;
pub mod paths;
pub mod text;

use crate::desktop_entry::DesktopEntry;
use crate::mime_apps::MimeApps;
use crate::mime_type::MimeType;
use crate::text::{chars_eq, chars_of, extend_chars, string_of};

verus! {

/// Paths grouped by the desktop entry that opens them: in the order in which
/// the entries first come, each with its paths in their order.
pub open spec fn group_paths(rs: Seq<(Seq<char>, Seq<char>)>) -> Seq<(Seq<char>, Seq<Seq<char>>)>
    decreases rs.len(),
{
    if rs.len() == 0 {
        Seq::empty()
    } else {
        let gs = group_paths(rs.drop_last());
        let (path, entry) = rs.last();
        let j = find_group(gs, entry);
        if j < 0 {
            gs.push((entry, seq![path]))
        } else {
            gs.update(j, (entry, gs[j].1.push(path)))
        }
    }
}

/// The position of the group of `entry`, or `-1`.
pub open spec fn find_group(gs: Seq<(Seq<char>, Seq<Seq<char>>)>, entry: Seq<char>) -> int
    decreases gs.len(),
{
    if gs.len() == 0 {
        -1
    } else if gs[0].0 == entry {
        0
    } else {
        let r = find_group(gs.drop_first(), entry);
        if r < 0 {
            -1
        } else {
            r + 1
        }
    }
}

proof fn lemma_find_group(gs: Seq<(Seq<char>, Seq<Seq<char>>)>, entry: Seq<char>)
    ensures
        -1 <= find_group(gs, entry) < gs.len(),
        find_group(gs, entry) >= 0 ==> gs[find_group(gs, entry)].0 == entry,
        find_group(gs, entry) >= 0 ==> forall|k: int| 0 <= k < find_group(gs, entry) ==> gs[k].0 != entry,
        find_group(gs, entry) < 0 ==> forall|k: int| 0 <= k < gs.len() ==> gs[k].0 != entry,
    decreases gs.len(),
{
    if gs.len() > 0 {
        lemma_find_group(gs.drop_first(), entry);
        let r = find_group(gs.drop_first(), entry);
        if gs[0].0 != entry {
            assert forall|k: int| 0 <= k < gs.len() && (r < 0 || k < r + 1) implies gs[k].0 != entry by {
                if k > 0 {
                    assert(gs[k] == gs.drop_first()[k - 1]);
                }
            }
        }
    }
}

/// The position of the first group of `entry`.
fn find_group_index(groups: &Vec<(String, Vec<String>)>, entry: &str) -> (res: Option<usize>)
    ensures
        match res {
            Some(j) => j < groups@.len() && groups@[j as int].0@ == entry@ && forall|k: int|
                0 <= k < j ==> groups@[k].0@ != entry@,
            None => forall|k: int| 0 <= k < groups@.len() ==> groups@[k].0@ != entry@,
        },
{
    let e = chars_of(entry);
    let mut j: usize = 0;
    while j < groups.len()
        invariant
            j <= groups@.len(),
            e@ == entry@,
            forall|k: int| 0 <= k < j ==> groups@[k].0@ != entry@,
        decreases groups@.len() - j,
    {
        let g = chars_of(groups[j].0.as_str());
        if chars_eq(&g, &e) {
            return Some(j);
        }
        j = j + 1;
    }
    None
}

pub open spec fn resolved_view(v: Seq<(String, String)>) -> Seq<(Seq<char>, Seq<char>)> {
    v.map_values(|p: (String, String)| (p.0@, p.1@))
}

pub open spec fn groups_view(v: Seq<(String, Vec<String>)>) -> Seq<(Seq<char>, Seq<Seq<char>>)> {
    v.map_values(|g: (String, Vec<String>)| (g.0@, mime_map::strings_view(g.1@)))
}

/// Groups the paths to open by the desktop entry that opens them, so that an
/// application that takes several files opens them in one window. `resolved`
/// holds each path with the path of its entry.
pub fn group_by_entry(resolved: &Vec<(String, String)>) -> (res: Vec<(String, Vec<String>)>)
    ensures
        groups_view(res@) == group_paths(resolved_view(resolved@)),
{
    let ghost all = resolved_view(resolved@);
    let mut groups: Vec<(String, Vec<String>)> = Vec::new();
    let mut i: usize = 0;
    assert(groups_view(groups@) =~= group_paths(all.take(0)));
    while i < resolved.len()
        invariant
            i <= resolved@.len(),
            all == resolved_view(resolved@),
            groups_view(groups@) == group_paths(all.take(i as int)),
        decreases resolved@.len() - i,
    {
        let ghost gs = group_paths(all.take(i as int));
        assert(all.take(i + 1).drop_last() =~= all.take(i as int));
        assert(all.take(i + 1).last() == all[i as int]);
        let (path, entry) = &resolved[i];
        assert(all[i as int] == (path@, entry@));
        proof {
            lemma_find_group(gs, entry@);
        }
        let found = find_group_index(&groups, entry.as_str());
        if let Some(j) = found {
            proof {
                assert(find_group(gs, entry@) == j as int) by {
                    if find_group(gs, entry@) < 0 {
                        assert(gs[j as int].0 != entry@);
                    } else if find_group(gs, entry@) > j {
                        assert(gs[j as int].0 != entry@);
                    }
                }
            }
            let mut ps: Vec<String> = Vec::new();
            text::extend_strings(&mut ps, &groups[j].1);
            let ghost before_ps = mime_map::strings_view(ps@);
            ps.push(path.clone());
            assert(mime_map::strings_view(ps@) =~= before_ps.push(path@));
            let key = groups[j].0.clone();
            groups.set(j, (key, ps));
            proof {
                let want = gs.update(j as int, (entry@, gs[j as int].1.push(path@)));
                assert(groups_view(groups@) =~= want);
            }
        } else {
            proof {
                assert(find_group(gs, entry@) < 0);
            }
            let mut ps: Vec<String> = Vec::new();
            ps.push(path.clone());
            groups.push((entry.clone(), ps));
            proof {
                assert(mime_map::strings_view(ps@) =~= seq![path@]);
                assert(groups_view(groups@) =~= gs.push((entry@, seq![path@])));
            }
        }
        i = i + 1;
    }
    assert(all.take(resolved@.len() as int) =~= all);
    groups
}

/// No two groups have the same entry.
pub open spec fn groups_distinct(rs: Seq<(Seq<char>, Seq<char>)>) -> bool {
    forall|i: int, j: int|
        0 <= i < j < group_paths(rs).len() ==> #[trigger] group_paths(rs)[i].0 != #[trigger] group_paths(rs)[j].0
}

/// Every path is in the group of its entry.
pub open spec fn groups_cover(rs: Seq<(Seq<char>, Seq<char>)>) -> bool {
    forall|k: int|
        0 <= k < rs.len() ==> exists|j: int|
            0 <= j < group_paths(rs).len() && group_paths(rs)[j].0 == (#[trigger] rs[k]).1
                && group_paths(rs)[j].1.contains(rs[k].0)
}

/// Every path in a group was given with that group's entry.
pub open spec fn groups_only(rs: Seq<(Seq<char>, Seq<char>)>) -> bool {
    forall|j: int, m: int|
        #![trigger group_paths(rs)[j].1[m]]
        0 <= j < group_paths(rs).len() && 0 <= m < group_paths(rs)[j].1.len() ==> exists|k: int|
            0 <= k < rs.len() && #[trigger] rs[k] == (group_paths(rs)[j].1[m], group_paths(rs)[j].0)
}

/// The groups have distinct entries.
proof fn lemma_groups_distinct(rs: Seq<(Seq<char>, Seq<char>)>)
    ensures
        groups_distinct(rs),
    decreases rs.len(),
{
    if rs.len() > 0 {
        let init = rs.drop_last();
        lemma_groups_distinct(init);
        let gs = group_paths(init);
        let (path, entry) = rs.last();
        lemma_find_group(gs, entry);
        let f = find_group(gs, entry);
        let ng = group_paths(rs);
        assert forall|i: int, j: int| 0 <= i < j < ng.len() implies #[trigger] ng[i].0 != #[trigger] ng[j].0 by {
            if j < gs.len() {
                assert(ng[i].0 == gs[i].0);
                assert(ng[j].0 == gs[j].0);
            } else {
                assert(ng[i].0 == gs[i].0);
            }
        }
    }
}

/// Every path is in the group of its entry.
proof fn lemma_groups_cover(rs: Seq<(Seq<char>, Seq<char>)>)
    ensures
        groups_cover(rs),
    decreases rs.len(),
{
    if rs.len() > 0 {
        let init = rs.drop_last();
        lemma_groups_cover(init);
        let gs = group_paths(init);
        let (path, entry) = rs.last();
        lemma_find_group(gs, entry);
        let f = find_group(gs, entry);
        let ng = group_paths(rs);
        assert forall|k: int| 0 <= k < rs.len() implies exists|j: int|
            0 <= j < ng.len() && ng[j].0 == (#[trigger] rs[k]).1 && ng[j].1.contains(rs[k].0) by {
            if k == rs.len() - 1 {
                if f < 0 {
                    let j = gs.len() as int;
                    assert(ng[j].1 == seq![path]);
                    assert(ng[j].1[0] == path);
                } else {
                    assert(ng[f].1 == gs[f].1.push(path));
                    assert(ng[f].1[gs[f].1.len() as int] == path);
                }
            } else {
                assert(rs[k] == init[k]);
                let j = choose|j: int| 0 <= j < gs.len() && gs[j].0 == init[k].1 && gs[j].1.contains(init[k].0);
                let m = choose|m: int| 0 <= m < gs[j].1.len() && gs[j].1[m] == init[k].0;
                if f >= 0 && j == f {
                    assert(ng[j].1 == gs[j].1.push(path));
                    assert(ng[j].1[m] == init[k].0);
                } else {
                    assert(ng[j] == gs[j]);
                }
            }
        }
    }
}

/// Every path in a group was given with that group's entry.
proof fn lemma_groups_only(rs: Seq<(Seq<char>, Seq<char>)>)
    ensures
        groups_only(rs),
    decreases rs.len(),
{
    if rs.len() > 0 {
        let init = rs.drop_last();
        lemma_groups_only(init);
        let gs = group_paths(init);
        let (path, entry) = rs.last();
        lemma_find_group(gs, entry);
        let f = find_group(gs, entry);
        let ng = group_paths(rs);
        assert forall|j: int, m: int|
            #![trigger ng[j].1[m]]
            0 <= j < ng.len() && 0 <= m < ng[j].1.len() implies exists|k: int|
                0 <= k < rs.len() && #[trigger] rs[k] == (ng[j].1[m], ng[j].0) by {
            if j < gs.len() && !(f == j && m == gs[j].1.len()) {
                assert(ng[j].0 == gs[j].0);
                assert(ng[j].1[m] == gs[j].1[m]);
                let k = choose|k: int| 0 <= k < init.len() && #[trigger] init[k] == (gs[j].1[m], gs[j].0);
                assert(rs[k] == init[k]);
            } else {
                assert(rs[rs.len() - 1] == (path, entry));
            }
        }
    }
}

/// Law: grouping the paths to open gives one group per desktop entry, every
/// path in the group of its entry, and nothing else in the groups.
pub proof fn lemma_open_groups(rs: Seq<(Seq<char>, Seq<char>)>)
    ensures
        groups_distinct(rs),
        groups_cover(rs),
        groups_only(rs),
{
    lemma_groups_distinct(rs);
    lemma_groups_cover(rs);
    lemma_groups_only(rs);
}

/// The group at `i` is the last whose entry runs in a terminal.
pub open spec fn last_terminal_group(uses_terminal: Seq<bool>, i: int) -> bool {
    &&& uses_terminal[i]
    &&& forall|j: int| i < j < uses_terminal.len() ==> !uses_terminal[j]
}

/// The group at `i` is launched.
pub open spec fn launched(order: Seq<(usize, bool)>, i: int) -> bool {
    exists|k: int| 0 <= k < order.len() && order[k].0 == i
}

/// A launch order for groups of which those marked in `uses_terminal` run in
/// a terminal: every group exactly once, the others first, then those that
/// run in a terminal, each part in the order of the groups; a group may take
/// over the terminal exactly when it is the last that runs in one and
/// `can_consume` holds, and then it is launched last.
pub open spec fn launch_order_ok(order: Seq<(usize, bool)>, uses_terminal: Seq<bool>, can_consume: bool) -> bool {
    &&& forall|k: int| 0 <= k < order.len() ==> (#[trigger] order[k]).0 < uses_terminal.len()
    &&& forall|i: int| 0 <= i < uses_terminal.len() ==> #[trigger] launched(order, i)
    &&& forall|k1: int, k2: int| 0 <= k1 < k2 < order.len() ==> #[trigger] order[k1].0 != #[trigger] order[k2].0
    &&& forall|k1: int, k2: int|
        0 <= k1 < k2 < order.len() && uses_terminal[#[trigger] order[k1].0 as int] ==> uses_terminal[#[trigger] order[k2].0 as int]
    &&& forall|k1: int, k2: int|
        0 <= k1 < k2 < order.len() && uses_terminal[#[trigger] order[k1].0 as int] == uses_terminal[#[trigger] order[k2].0 as int]
            ==> order[k1].0 < order[k2].0
    &&& forall|k: int|
        0 <= k < order.len() ==> ((#[trigger] order[k]).1 <==> can_consume && last_terminal_group(uses_terminal, order[k].0 as int))
    &&& forall|k: int| 0 <= k < order.len() && (#[trigger] order[k]).1 ==> k == order.len() - 1
}

/// The order in which to launch the groups, given whether the entry of each
/// runs in a terminal: the others first, then those that run in a terminal,
/// each part in the order of the groups. Only one program can take over this
/// terminal, and a launch that does so never hands control back, so it comes
/// last: each group comes with whether it may take the terminal, which holds
/// of the last group that runs in a terminal alone, and only where
/// `can_consume` says that this terminal can be taken at all.
pub fn launch_order(uses_terminal: &Vec<bool>, can_consume: bool) -> (res: Vec<(usize, bool)>)
    ensures
        launch_order_ok(res@, uses_terminal@, can_consume),
{
    let n = uses_terminal.len();
    let mut res: Vec<(usize, bool)> = Vec::new();
    let mut last: Option<usize> = None;
    let mut i: usize = 0;
    while i < n
        invariant
            n == uses_terminal@.len(),
            i <= n,
            forall|k: int| 0 <= k < res@.len() ==> (#[trigger] res@[k]).0 < i && !uses_terminal@[res@[k].0 as int] && !res@[k].1,
            forall|k1: int, k2: int| 0 <= k1 < k2 < res@.len() ==> #[trigger] res@[k1].0 < #[trigger] res@[k2].0,
            forall|j: int| 0 <= j < i && !uses_terminal@[j] ==> exists|k: int| 0 <= k < res@.len() && #[trigger] res@[k].0 == j,
            match last {
                Some(l) => l < i && uses_terminal@[l as int] && forall|j: int| l < j < i ==> !uses_terminal@[j],
                None => forall|j: int| 0 <= j < i ==> !uses_terminal@[j],
            },
        decreases n - i,
    {
        if uses_terminal[i] {
            last = Some(i);
        } else {
            let ghost before = res@;
            res.push((i, false));
            proof {
                assert forall|j: int| 0 <= j < i + 1 && !uses_terminal@[j] implies exists|k: int|
                    0 <= k < res@.len() && #[trigger] res@[k].0 == j by {
                    if j < i {
                        let k = choose|k: int| 0 <= k < before.len() && #[trigger] before[k].0 == j;
                        assert(res@[k] == before[k]);
                    } else {
                        assert(res@[before.len() as int].0 == j);
                    }
                }
            }
        }
        i = i + 1;
    }
    let plain = res.len();
    proof {
        match last {
            Some(l) => assert(last_terminal_group(uses_terminal@, l as int)),
            None => {},
        }
    }
    i = 0;
    while i < n
        invariant
            n == uses_terminal@.len(),
            i <= n,
            plain <= res@.len(),
            forall|k: int| 0 <= k < plain ==> (#[trigger] res@[k]).0 < n && !uses_terminal@[res@[k].0 as int] && !res@[k].1,
            forall|k1: int, k2: int| 0 <= k1 < k2 < plain ==> #[trigger] res@[k1].0 < #[trigger] res@[k2].0,
            forall|j: int| 0 <= j < n && !uses_terminal@[j] ==> exists|k: int| 0 <= k < plain && #[trigger] res@[k].0 == j,
            forall|k: int| plain <= k < res@.len() ==> (#[trigger] res@[k]).0 < i && uses_terminal@[res@[k].0 as int]
                && (res@[k].1 <==> can_consume && last == Some(res@[k].0)),
            forall|k1: int, k2: int| plain <= k1 < k2 < res@.len() ==> #[trigger] res@[k1].0 < #[trigger] res@[k2].0,
            forall|j: int| 0 <= j < i && uses_terminal@[j] ==> exists|k: int| plain <= k < res@.len() && #[trigger] res@[k].0 == j,
            match last {
                Some(l) => l < n && last_terminal_group(uses_terminal@, l as int),
                None => forall|j: int| 0 <= j < n ==> !uses_terminal@[j],
            },
        decreases n - i,
    {
        if uses_terminal[i] {
            let take = can_consume && last == Some(i);
            let ghost before = res@;
            res.push((i, take));
            proof {
                assert forall|j: int| 0 <= j < i + 1 && uses_terminal@[j] implies exists|k: int|
                    plain <= k < res@.len() && #[trigger] res@[k].0 == j by {
                    if j < i {
                        let k = choose|k: int| plain <= k < before.len() && #[trigger] before[k].0 == j;
                        assert(res@[k] == before[k]);
                    } else {
                        assert(res@[before.len() as int].0 == j);
                    }
                }
                assert forall|j: int| 0 <= j < n && !uses_terminal@[j] implies exists|k: int|
                    0 <= k < plain && #[trigger] res@[k].0 == j by {
                    let k = choose|k: int| 0 <= k < plain && #[trigger] before[k].0 == j;
                    assert(res@[k] == before[k]);
                }
            }
        }
        i = i + 1;
    }
    proof {
        assert forall|k: int| plain <= k < res@.len() implies ((#[trigger] res@[k]).1 <==> can_consume
            && last_terminal_group(uses_terminal@, res@[k].0 as int)) by {
            let idx = res@[k].0 as int;
            match last {
                Some(l) => {
                    if idx != l && last_terminal_group(uses_terminal@, idx) {
                        if idx < l {
                            assert(!uses_terminal@[l as int]);
                        } else {
                            assert(!uses_terminal@[idx]);
                        }
                    }
                },
                None => {},
            }
        }
        assert forall|k: int| 0 <= k < res@.len() && (#[trigger] res@[k]).1 implies k == res@.len() - 1 by {
            if k < res@.len() - 1 {
                let k2 = res@.len() - 1;
                assert(res@[k].0 < res@[k2].0);
                assert(uses_terminal@[res@[k2].0 as int]);
            }
        }
        assert forall|i: int| 0 <= i < uses_terminal@.len() implies #[trigger] launched(res@, i) by {
            if uses_terminal@[i] {
                let k = choose|k: int| plain <= k < res@.len() && #[trigger] res@[k].0 == i;
            } else {
                let k = choose|k: int| 0 <= k < plain && #[trigger] res@[k].0 == i;
            }
        }
    }
    res
}

/// One launch of the plan: a group of paths and the entry that opens them.
pub struct LaunchGroup {
    /// The group's position among the groups of `group_by_entry`.
    pub group: usize,
    /// The path of the desktop entry.
    pub entry: String,
    /// The paths to open with it, in the order they were given.
    pub paths: Vec<String>,
    /// Whether this launch may take over the terminal.
    pub take_terminal: bool,
}

/// The launch order of a plan: each launch's group and terminal flag.
pub open spec fn plan_order(plan: Seq<LaunchGroup>) -> Seq<(usize, bool)> {
    plan.map_values(|g: LaunchGroup| (g.group, g.take_terminal))
}

/// For each group, whether its entry is one of `terminal_entries`.
pub open spec fn terminal_flags(gs: Seq<(Seq<char>, Seq<Seq<char>>)>, terminal_entries: Seq<Seq<char>>) -> Seq<bool> {
    Seq::new(gs.len(), |k: int| terminal_entries.contains(gs[k].0))
}

/// Every launch of the plan is the group it names: its entry and its paths.
pub open spec fn plan_matches_groups(plan: Seq<LaunchGroup>, gs: Seq<(Seq<char>, Seq<Seq<char>>)>) -> bool {
    forall|k: int|
        0 <= k < plan.len() ==> (#[trigger] plan[k]).group < gs.len() && plan[k].entry@ == gs[plan[k].group as int].0
            && mime_map::strings_view(plan[k].paths@) == gs[plan[k].group as int].1
}

/// Whether `v` holds `s`.
fn contains_string(v: &Vec<String>, s: &String) -> (res: bool)
    ensures
        res == mime_map::strings_view(v@).contains(s@),
{
    let mut i: usize = 0;
    while i < v.len()
        invariant
            i <= v@.len(),
            forall|k: int| 0 <= k < i ==> v@[k]@ != s@,
        decreases v@.len() - i,
    {
        if v[i] == *s {
            assert(mime_map::strings_view(v@)[i as int] == s@);
            return true;
        }
        i = i + 1;
    }
    assert(!mime_map::strings_view(v@).contains(s@)) by {
        if mime_map::strings_view(v@).contains(s@) {
            let k = choose|k: int| 0 <= k < v@.len() && mime_map::strings_view(v@)[k] == s@;
            assert(v@[k]@ == s@);
        }
    }
    false
}

/// Plans the opening of many paths with their default applications.
/// `resolved` holds each path with the path of the desktop entry that opens
/// it (a path without one is left out); `terminal_entries` lists the entries
/// that run in a terminal; `can_consume` says whether this process's terminal
/// can be taken over (standard output is a terminal).
///
/// The paths of one entry form one group, opened in one launch, with the
/// paths in the order they were given. Each group is launched exactly once.
/// Only one application can take over the terminal, and doing so never hands
/// control back: the groups that need no terminal come first, those that run
/// in a terminal after them, and only the last of those may take over the
/// terminal, where it can be taken; the others that need one start their own.
pub fn open(resolved: &Vec<(String, String)>, terminal_entries: &Vec<String>, can_consume: bool) -> (res: Vec<LaunchGroup>)
    ensures
        plan_matches_groups(res@, group_paths(resolved_view(resolved@))),
        launch_order_ok(
            plan_order(res@),
            terminal_flags(group_paths(resolved_view(resolved@)), mime_map::strings_view(terminal_entries@)),
            can_consume,
        ),
        !can_consume ==> forall|k: int| 0 <= k < res@.len() ==> !(#[trigger] res@[k]).take_terminal,
        groups_distinct(resolved_view(resolved@)),
        groups_cover(resolved_view(resolved@)),
        groups_only(resolved_view(resolved@)),
{
    let ghost gs = group_paths(resolved_view(resolved@));
    let ghost te = mime_map::strings_view(terminal_entries@);
    let groups = group_by_entry(resolved);
    let mut uses_terminal: Vec<bool> = Vec::new();
    let mut i: usize = 0;
    while i < groups.len()
        invariant
            i <= groups@.len(),
            groups_view(groups@) == gs,
            te == mime_map::strings_view(terminal_entries@),
            uses_terminal@.len() == i,
            forall|k: int| 0 <= k < i ==> uses_terminal@[k] == te.contains(gs[k].0),
        decreases groups@.len() - i,
    {
        assert(gs[i as int].0 == groups@[i as int].0@);
        uses_terminal.push(contains_string(terminal_entries, &groups[i].0));
        i = i + 1;
    }
    assert(uses_terminal@ =~= terminal_flags(gs, te));
    let order = launch_order(&uses_terminal, can_consume);
    let mut plan: Vec<LaunchGroup> = Vec::new();
    let mut k: usize = 0;
    while k < order.len()
        invariant
            k <= order@.len(),
            groups_view(groups@) == gs,
            uses_terminal@.len() == gs.len(),
            launch_order_ok(order@, uses_terminal@, can_consume),
            plan@.len() == k,
            forall|j: int| 0 <= j < k ==> (#[trigger] plan@[j]).group == order@[j].0 && plan@[j].take_terminal == order@[j].1,
            plan_matches_groups(plan@, gs),
        decreases order@.len() - k,
    {
        let (g, t) = order[k];
        assert(order@[k as int].0 < uses_terminal@.len());
        let mut paths: Vec<String> = Vec::new();
        text::extend_strings(&mut paths, &groups[g].1);
        assert(mime_map::strings_view(paths@) =~= gs[g as int].1);
        let entry = groups[g].0.clone();
        assert(entry@ == gs[g as int].0);
        let ghost before = plan@;
        plan.push(LaunchGroup { group: g, entry, paths, take_terminal: t });
        proof {
            assert forall|j: int| 0 <= j < k + 1 implies (#[trigger] plan@[j]).group < gs.len()
                && plan@[j].entry@ == gs[plan@[j].group as int].0
                && mime_map::strings_view(plan@[j].paths@) == gs[plan@[j].group as int].1 by {
                if j < k {
                    assert(plan@[j] == before[j]);
                }
            }
        }
        k = k + 1;
    }
    assert(plan_order(plan@) =~= order@);
    proof {
        lemma_open_groups(resolved_view(resolved@));
        if !can_consume {
            assert forall|j: int| 0 <= j < plan@.len() implies !(#[trigger] plan@[j]).take_terminal by {
                assert(order@[j].1 == plan@[j].take_terminal);
            }
        }
    }
    plan
}

/// Sets the application of `desktop_entry` as the default for `mimetype`.
pub fn set_default(mime_apps: &mut MimeApps, mimetype: &MimeType, desktop_entry: &DesktopEntry)
    ensures
        final(mime_apps)@ == (
            old(mime_apps)@.0.insert(mimetype@, seq![desktop_entry@.file_name]),
            old(mime_apps)@.1,
            old(mime_apps)@.2,
        ),
        mime_apps::default_entries_of(final(mime_apps)@.0, mimetype@, mimetype.top_level()) == Some(
            seq![desktop_entry@.file_name],
        ),
        mime_apps::model_writable(old(mime_apps)@) && !mimetype@.contains('=') && mime_apps::names_storable(
            seq![desktop_entry@.file_name],
        ) ==> mime_apps::model_writable(final(mime_apps)@),
{
    let mut names: Vec<String> = Vec::new();
    names.push(desktop_entry.file_name().clone());
    assert(mime_map::strings_view(names@) =~= seq![desktop_entry@.file_name]);
    mime_apps.insert_default(mimetype.duplicate(), names);
}


/// How the media type of an input is found.
pub enum MimeLookup {
    /// The input is an existing file: guess from the file.
    GuessFromPath,
    /// The input is a media type, or a URL whose scheme gives one.
    Known(MimeType),
    /// The input is a file type: guess from this file name (`.pdf` for `pdf`).
    GuessFromFileName(String),
}

/// The text of the media type of a URL scheme: `x-scheme-handler/PROTOCOL`.
pub open spec fn scheme_handler_text(protocol: Seq<char>) -> Seq<char> {
    "x-scheme-handler/"@ + protocol
}

/// The file name that a file type is guessed from: the input with a `.` in
/// front, unless it starts with one.
pub open spec fn file_name_query(input: Seq<char>) -> Seq<char> {
    if input.len() > 0 && input[0] == '.' {
        input
    } else {
        seq!['.'] + input
    }
}

/// The separator of a URL's scheme.
pub open spec fn scheme_separator() -> Seq<char> {
    seq![':', '/', '/']
}

/// The protocol that an input names: the part before `://` of a URL, or a
/// bare scheme such as `https:` without its colon.
pub open spec fn url_protocol(input: Seq<char>) -> Option<Seq<char>> {
    match text::split_once_pat(input, scheme_separator()) {
        Some((p, _)) => Some(p),
        None => if input.len() > 1 && input.last() == ':' {
            Some(input.drop_last())
        } else {
            None
        },
    }
}

/// The inputs on which finding the media type is defined: a protocol must
/// make a valid media type.
pub open spec fn scheme_parses(input: Seq<char>, path_exists: bool) -> bool {
    path_exists || mime_type::parsed_mime(input) is Some || match url_protocol(input) {
        Some(p) => mime_type::parsed_mime(scheme_handler_text(p)) is Some,
        None => true,
    }
}

/// How the media type of `input` is found: an existing file is guessed from;
/// else a valid media type is taken as it is (a path can look like one, so
/// files come first); else a URL `PROTOCOL://...` or a bare scheme
/// `PROTOCOL:` gives `x-scheme-handler/PROTOCOL`; else the input is taken
/// for a file type.
pub open spec fn mime_lookup_ok(res: MimeLookup, input: Seq<char>, path_exists: bool) -> bool {
    if path_exists {
        res is GuessFromPath
    } else {
        match mime_type::parsed_mime(input) {
            Some((t, top)) => res matches MimeLookup::Known(m) && m@ == t && m.top_level() == top,
            None => match url_protocol(input) {
                Some(p) => match mime_type::parsed_mime(scheme_handler_text(p)) {
                    Some((t, top)) => res matches MimeLookup::Known(m) && m@ == t && m.top_level() == top,
                    None => false,
                },
                None => res matches MimeLookup::GuessFromFileName(n) && n@ == file_name_query(input),
            },
        }
    }
}

/// The protocol that `cs` names, as `url_protocol` says.
fn protocol_of(cs: &Vec<char>) -> (res: Option<Vec<char>>)
    ensures
        match res {
            Some(p) => url_protocol(cs@) == Some(p@),
            None => url_protocol(cs@) is None,
        },
{
    let sep = vec![':', '/', '/'];
    assert(sep@ =~= scheme_separator());
    match text::split_once_pat_chars(cs, &sep) {
        Some((protocol, _)) => Some(protocol),
        None => {
            let n = cs.len();
            if n > 1 && cs[n - 1] == ':' {
                let mut p: Vec<char> = Vec::new();
                let mut i: usize = 0;
                while i < n - 1
                    invariant
                        n == cs@.len(),
                        n > 1,
                        i <= n - 1,
                        p@ == cs@.take(i as int),
                    decreases n - 1 - i,
                {
                    p.push(cs[i]);
                    assert(p@ =~= cs@.take(i + 1));
                    i = i + 1;
                }
                assert(p@ =~= cs@.drop_last());
                Some(p)
            } else {
                None
            }
        },
    }
}

/// The media type text `x-scheme-handler/PROTOCOL`.
fn scheme_handler(protocol: &Vec<char>) -> (res: String)
    ensures
        res@ == scheme_handler_text(protocol@),
{
    let mut t = chars_of("x-scheme-handler/");
    extend_chars(&mut t, protocol);
    string_of(t.as_slice())
}

/// Decides how to find the media type of `input`; `path_exists` says
/// whether `input` names an existing file.
pub fn get_mime_type(input: &str, path_exists: bool) -> (res: MimeLookup)
    requires
        scheme_parses(input@, path_exists),
    ensures
        mime_lookup_ok(res, input@, path_exists),
{
    if path_exists {
        return MimeLookup::GuessFromPath;
    }
    if let Some(m) = MimeType::parse(input) {
        return MimeLookup::Known(m);
    }
    let cs = chars_of(input);
    match protocol_of(&cs) {
        Some(protocol) => {
            let handler = scheme_handler(&protocol);
            match MimeType::parse(handler.as_str()) {
                Some(m) => MimeLookup::Known(m),
                None => MimeLookup::GuessFromFileName(String::new()),
            }
        },
        None => {
            if cs.len() > 0 && cs[0] == '.' {
                MimeLookup::GuessFromFileName(input.to_owned())
            } else {
                let mut t: Vec<char> = Vec::new();
                t.push('.');
                extend_chars(&mut t, &cs);
                assert(t@ =~= file_name_query(input@));
                MimeLookup::GuessFromFileName(string_of(t.as_slice()))
            }
        },
    }
}

/// As `get_mime_type`, but `None` for a protocol that makes no valid media
/// type (where `get_mime_type` is not defined).
pub fn try_get_mime_type(input: &str, path_exists: bool) -> (res: Option<MimeLookup>)
    ensures
        match res {
            Some(l) => scheme_parses(input@, path_exists) && mime_lookup_ok(l, input@, path_exists),
            None => !scheme_parses(input@, path_exists),
        },
{
    if path_exists {
        return Some(get_mime_type(input, path_exists));
    }
    if MimeType::parse(input).is_some() {
        return Some(get_mime_type(input, path_exists));
    }
    let cs = chars_of(input);
    match protocol_of(&cs) {
        Some(protocol) => {
            let handler = scheme_handler(&protocol);
            if MimeType::parse(handler.as_str()).is_some() {
                Some(get_mime_type(input, path_exists))
            } else {
                None
            }
        },
        None => Some(get_mime_type(input, path_exists)),
    }
}

/// The media type to use for what the database guessed from a file. An
/// empty file (`application/x-zerosize`) takes the type that its name gives,
/// where `name_guess` (the database's guess from the file's name, and whether
/// it is uncertain) is certain, and else counts as `text/plain`, so that a
/// new empty file opens.
pub fn mime_from_path_guess(guess: &MimeType, name_guess: Option<(MimeType, bool)>) -> (res: Option<MimeType>)
    ensures
        ({
            let is_zero = match mime_type::parsed_mime("application/x-zerosize"@) {
                Some((z, _)) => z == guess@,
                None => false,
            };
            if is_zero {
                match name_guess {
                    Some((n, false)) => res matches Some(m) && m@ == n@ && m.top_level() == n.top_level(),
                    _ => match mime_type::parsed_mime("text/plain"@) {
                        Some((t, top)) => res matches Some(m) && m@ == t && m.top_level() == top,
                        None => res is None,
                    },
                }
            } else {
                res matches Some(m) && m@ == guess@ && m.top_level() == guess.top_level()
            }
        }),
{
    let is_zero = match MimeType::parse("application/x-zerosize") {
        Some(z) => z.same(guess),
        None => false,
    };
    if is_zero {
        match name_guess {
            Some((n, false)) => Some(n),
            _ => MimeType::parse("text/plain"),
        }
    } else {
        Some(guess.duplicate())
    }
}

/// The media type to use for what the database guessed from a file name:
/// none when the guess is uncertain.
pub fn mime_from_name_guess(guess: MimeType, uncertain: bool) -> (res: Option<MimeType>)
    ensures
        match res {
            Some(m) => !uncertain && m@ == guess@ && m.top_level() == guess.top_level(),
            None => uncertain,
        },
{
    if uncertain {
        None
    } else {
        Some(guess)
    }
}

} // verus!
