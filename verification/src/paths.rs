//! Unix path text: the final component of a path and the joining of a
//! relative component, as `std::path` does them.
use vstd::prelude::*;

use crate::text::{self, chars_eq, chars_of, extend_chars, split_chars, string_of};

verus! {

/// The last component among `parts` that names something: empty parts and
/// `.` are skipped, and a last `..` names nothing.
pub open spec fn last_component(parts: Seq<Seq<char>>) -> Option<Seq<char>>
    decreases parts.len(),
{
    if parts.len() == 0 {
        None
    } else {
        let l = parts.last();
        if l.len() == 0 || l == seq!['.'] {
            last_component(parts.drop_last())
        } else if l == seq!['.', '.'] {
            None
        } else {
            Some(l)
        }
    }
}

/// The final component of a path (`Path::file_name`): `None` for the root,
/// for `.` and for a path that ends in `..`.
pub open spec fn file_name(path: Seq<char>) -> Option<Seq<char>> {
    last_component(text::split(path, '/'))
}

/// Returns the final component of `path`.
pub fn file_name_of(path: &str) -> (res: Option<String>)
    ensures
        match res {
            Some(n) => file_name(path@) == Some(n@),
            None => file_name(path@) is None,
        },
{
    let cs = chars_of(path);
    let parts = split_chars(&cs, '/');
    let ghost all = text::split(path@, '/');
    let dot = vec!['.'];
    let dotdot = vec!['.', '.'];
    let mut i: usize = parts.len();
    assert(all.take(i as int) =~= all);
    while i > 0
        invariant
            i <= parts@.len(),
            parts@.len() == all.len(),
            forall|k: int| 0 <= k < all.len() ==> #[trigger] parts@[k]@ == all[k],
            dot@ == seq!['.'],
            dotdot@ == seq!['.', '.'],
            file_name(path@) == last_component(all.take(i as int)),
        decreases i,
    {
        let l = &parts[i - 1];
        assert(all.take(i as int).drop_last() =~= all.take(i - 1));
        assert(all.take(i as int).last() == l@);
        if l.len() == 0 || chars_eq(l, &dot) {
            i = i - 1;
        } else if chars_eq(l, &dotdot) {
            return None;
        } else {
            return Some(string_of(l.as_slice()));
        }
    }
    assert(all.take(0) =~= Seq::<Seq<char>>::empty());
    None
}

/// `base` with the component `comp` pushed onto it (`PathBuf::push`): an
/// absolute `comp` replaces `base`; otherwise a `/` is put between them
/// unless `base` is empty or already ends in one.
pub open spec fn join(base: Seq<char>, comp: Seq<char>) -> Seq<char> {
    if comp.len() > 0 && comp[0] == '/' {
        comp
    } else if base.len() > 0 && base.last() != '/' {
        base + seq!['/'] + comp
    } else {
        base + comp
    }
}

/// Pushes `comp` onto `base`.
pub fn join_path(base: &str, comp: &str) -> (res: String)
    ensures
        res@ == join(base@, comp@),
{
    let b = chars_of(base);
    let c = chars_of(comp);
    if c.len() > 0 && c[0] == '/' {
        return string_of(c.as_slice());
    }
    let mut out = b;
    let n = out.len();
    if n > 0 && out[n - 1] != '/' {
        out.push('/');
    }
    extend_chars(&mut out, &c);
    string_of(out.as_slice())
}

} // verus!
