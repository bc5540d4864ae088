//! Character-level text handling: the splitting rules of `str` that the
//! file formats rely on, stated over `Seq<char>` and implemented on `Vec<char>`.
use vstd::prelude::*;
use vstd::string::*;

verus! {

/// Appends one character to a `String` (`String::push`).
#[verifier::external_body]
fn push_char(s: &mut String, c: char)
    ensures
        final(s)@ == old(s)@.push(c),
{
    s.push(c)
}

/// The characters of a string, in order.
pub fn chars_of(s: &str) -> (res: Vec<char>)
    ensures
        res@ == s@,
{
    let n = s.unicode_len();
    let mut res: Vec<char> = Vec::new();
    let mut i: usize = 0;
    while i < n
        invariant
            n == s@.len(),
            i <= n,
            res@ == s@.take(i as int),
        decreases n - i,
    {
        let c = s.get_char(i);
        res.push(c);
        i = i + 1;
        assert(res@ =~= s@.take(i as int));
    }
    assert(res@ =~= s@);
    res
}

/// A `String` holding the given characters.
pub fn string_of(cs: &[char]) -> (res: String)
    ensures
        res@ == cs@,
{
    let mut res = String::new();
    let mut i: usize = 0;
    while i < cs.len()
        invariant
            i <= cs@.len(),
            res@ == cs@.take(i as int),
        decreases cs@.len() - i,
    {
        push_char(&mut res, cs[i]);
        i = i + 1;
        assert(res@ =~= cs@.take(i as int));
    }
    assert(res@ =~= cs@);
    res
}

/// The names of a list, each as a `String`.
pub fn strings_of(v: &Vec<Vec<char>>) -> (res: Vec<String>)
    ensures
        crate::mime_map::strings_view(res@) == v@.map_values(|c: Vec<char>| c@),
{
    let mut res: Vec<String> = Vec::new();
    let mut i: usize = 0;
    while i < v.len()
        invariant
            i <= v@.len(),
            res@.len() == i,
            crate::mime_map::strings_view(res@) == v@.take(i as int).map_values(|c: Vec<char>| c@),
        decreases v@.len() - i,
    {
        let ghost before = res@;
        let s = string_of(v[i].as_slice());
        assert(s@ == v@[i as int]@);
        res.push(s);
        assert forall|k: int| 0 <= k < i + 1 implies #[trigger] crate::mime_map::strings_view(res@)[k]
            == v@.take(i + 1).map_values(|c: Vec<char>| c@)[k] by {
            if k < i {
                assert(crate::mime_map::strings_view(before)[k] == v@.take(i as int).map_values(|c: Vec<char>| c@)[k]);
                assert(res@[k] == before[k]);
            } else {
                assert(res@[k] == s);
            }
        }
        i = i + 1;
        assert(crate::mime_map::strings_view(res@) =~= v@.take(i as int).map_values(|c: Vec<char>| c@));
    }
    assert(v@.take(v@.len() as int) =~= v@);
    res
}

/// Appends copies of the strings of `xs` to `out`.
pub fn extend_strings(out: &mut Vec<String>, xs: &Vec<String>)
    ensures
        crate::mime_map::strings_view(final(out)@) == crate::mime_map::strings_view(old(out)@)
            + crate::mime_map::strings_view(xs@),
{
    let ghost start = crate::mime_map::strings_view(out@);
    let mut i: usize = 0;
    while i < xs.len()
        invariant
            i <= xs@.len(),
            crate::mime_map::strings_view(out@) == start + crate::mime_map::strings_view(xs@).take(i as int),
        decreases xs@.len() - i,
    {
        let ghost before = out@;
        let x = xs[i].clone();
        assert(x@ == xs@[i as int]@);
        out.push(x);
        proof {
            assert(out@ == before.push(x));
            let sv = crate::mime_map::strings_view(out@);
            assert(crate::mime_map::strings_view(xs@).take(i + 1).len() == i + 1);
            assert(crate::mime_map::strings_view(before).len() == before.len());
            let want = start + crate::mime_map::strings_view(xs@).take(i + 1);
            assert(crate::mime_map::strings_view(before) == start + crate::mime_map::strings_view(xs@).take(i as int));
            assert(sv.len() == want.len());
            assert forall|k: int| 0 <= k < sv.len() implies sv[k] == want[k] by {
                if k < before.len() {
                    assert(out@[k] == before[k]);
                    assert(crate::mime_map::strings_view(before)[k] == sv[k]);
                    assert(crate::mime_map::strings_view(before)[k] == want[k]);
                } else {
                    assert(sv[k] == x@);
                    assert(k - start.len() == i);
                }
            }
            assert(sv =~= want);
        }
        i = i + 1;
    }
    assert(crate::mime_map::strings_view(xs@).take(xs@.len() as int) =~= crate::mime_map::strings_view(xs@));
}

/// The pieces of `s` between occurrences of `sep`, as `str::split` yields
/// them: `n` separators give `n + 1` pieces, empty ones included.
pub open spec fn split(s: Seq<char>, sep: char) -> Seq<Seq<char>>
    decreases s.len(),
{
    if s.len() == 0 {
        seq![Seq::<char>::empty()]
    } else {
        let p = split(s.drop_last(), sep);
        if s.last() == sep {
            p.push(Seq::<char>::empty())
        } else {
            p.update(p.len() - 1, p.last().push(s.last()))
        }
    }
}

pub proof fn lemma_split_nonempty(s: Seq<char>, sep: char)
    ensures
        split(s, sep).len() >= 1,
    decreases s.len(),
{
    if s.len() > 0 {
        lemma_split_nonempty(s.drop_last(), sep);
    }
}

/// No piece of a split holds the separator.
pub proof fn lemma_split_excludes(s: Seq<char>, sep: char)
    ensures
        forall|k: int| 0 <= k < split(s, sep).len() ==> !(#[trigger] split(s, sep)[k]).contains(sep),
    decreases s.len(),
{
    lemma_split_nonempty(s, sep);
    if s.len() > 0 {
        lemma_split_excludes(s.drop_last(), sep);
        lemma_split_nonempty(s.drop_last(), sep);
        let p = split(s.drop_last(), sep);
        let q = split(s, sep);
        assert forall|k: int| 0 <= k < q.len() implies !(#[trigger] q[k]).contains(sep) by {
            if s.last() != sep && k == q.len() - 1 {
                let l = p.last();
                assert(!l.contains(sep)) by {
                    assert(p[p.len() - 1] == l);
                }
                if q[k].contains(sep) {
                    let j = choose|j: int| 0 <= j < q[k].len() && q[k][j] == sep;
                    if j < l.len() {
                        assert(l[j] == sep);
                    }
                }
            } else if k < p.len() {
                assert(q[k] == p[k]);
            }
        }
    }
}

/// A character that `s` does not hold is in none of its pieces.
pub proof fn lemma_split_excludes_char(s: Seq<char>, sep: char, c: char)
    requires
        !s.contains(c),
    ensures
        forall|k: int| 0 <= k < split(s, sep).len() ==> !(#[trigger] split(s, sep)[k]).contains(c),
    decreases s.len(),
{
    lemma_split_nonempty(s, sep);
    if s.len() > 0 {
        let t = s.drop_last();
        assert(!t.contains(c)) by {
            if t.contains(c) {
                let j = choose|j: int| 0 <= j < t.len() && t[j] == c;
                assert(s[j] == c);
            }
        }
        lemma_split_excludes_char(t, sep, c);
        lemma_split_nonempty(t, sep);
        let p = split(t, sep);
        let q = split(s, sep);
        assert(s.last() != c) by {
            assert(s[s.len() - 1] == s.last());
        }
        assert forall|k: int| 0 <= k < q.len() implies !(#[trigger] q[k]).contains(c) by {
            if s.last() != sep && k == q.len() - 1 {
                let l = p.last();
                assert(!l.contains(c)) by {
                    assert(p[p.len() - 1] == l);
                }
                if q[k].contains(c) {
                    let j = choose|j: int| 0 <= j < q[k].len() && q[k][j] == c;
                    if j < l.len() {
                        assert(l[j] == c);
                    }
                }
            } else if k < p.len() {
                assert(q[k] == p[k]);
            }
        }
    }
}

/// Splits `s` at every `sep` (`str::split` with a character pattern).
pub fn split_chars(s: &Vec<char>, sep: char) -> (res: Vec<Vec<char>>)
    ensures
        res@.len() == split(s@, sep).len(),
        forall|k: int| 0 <= k < res@.len() ==> #[trigger] res@[k]@ == split(s@, sep)[k],
{
    let mut done: Vec<Vec<char>> = Vec::new();
    let mut cur: Vec<char> = Vec::new();
    let mut i: usize = 0;
    while i < s.len()
        invariant
            i <= s@.len(),
            done@.len() + 1 == split(s@.take(i as int), sep).len(),
            forall|k: int| 0 <= k < done@.len() ==> #[trigger] done@[k]@ == split(s@.take(i as int), sep)[k],
            cur@ == split(s@.take(i as int), sep).last(),
        decreases s@.len() - i,
    {
        proof { lemma_split_nonempty(s@.take(i as int), sep); }
        let c = s[i];
        assert(s@.take(i + 1).drop_last() =~= s@.take(i as int));
        if c == sep {
            done.push(cur);
            cur = Vec::new();
        } else {
            cur.push(c);
        }
        i = i + 1;
    }
    assert(s@.take(s@.len() as int) =~= s@);
    proof { lemma_split_nonempty(s@, sep); }
    done.push(cur);
    done
}


/// Whether two character vectors hold the same characters.
pub fn chars_eq(a: &Vec<char>, b: &Vec<char>) -> (res: bool)
    ensures
        res == (a@ == b@),
{
    if a.len() != b.len() {
        return false;
    }
    let mut i: usize = 0;
    while i < a.len()
        invariant
            a@.len() == b@.len(),
            i <= a@.len(),
            forall|k: int| 0 <= k < i ==> a@[k] == b@[k],
        decreases a@.len() - i,
    {
        if a[i] != b[i] {
            return false;
        }
        i = i + 1;
    }
    assert(a@ =~= b@);
    true
}

/// Drops the last piece when it is empty: what `split_terminator` does after `split`.
pub open spec fn drop_trailing_empty(p: Seq<Seq<char>>) -> Seq<Seq<char>> {
    if p.len() > 0 && p.last().len() == 0 {
        p.drop_last()
    } else {
        p
    }
}

/// The pieces that `str::split_terminator` yields: those of `split`, but
/// without an empty last piece (a separator at the end only terminates).
pub open spec fn split_terminator(s: Seq<char>, sep: char) -> Seq<Seq<char>> {
    drop_trailing_empty(split(s, sep))
}

/// Splits `s` as `str::split_terminator` does.
pub fn split_terminator_chars(s: &Vec<char>, sep: char) -> (res: Vec<Vec<char>>)
    ensures
        res@.len() == split_terminator(s@, sep).len(),
        forall|k: int| 0 <= k < res@.len() ==> #[trigger] res@[k]@ == split_terminator(s@, sep)[k],
{
    let mut parts = split_chars(s, sep);
    proof { lemma_split_nonempty(s@, sep); }
    let n = parts.len();
    if parts[n - 1].len() == 0 {
        let _ = parts.pop();
    }
    parts
}

/// A line without the carriage return that ended it.
pub open spec fn strip_cr(l: Seq<char>) -> Seq<char> {
    if l.len() > 0 && l.last() == '\r' {
        l.drop_last()
    } else {
        l
    }
}

/// The lines of `s` as `str::lines` and `BufRead::lines` yield them: split at
/// `'\n'`, a `'\r'` right before a `'\n'` removed, and no line after a final
/// `'\n'`.
pub open spec fn lines(s: Seq<char>) -> Seq<Seq<char>> {
    let p = split(s, '\n');
    let init = p.drop_last().map_values(|l: Seq<char>| strip_cr(l));
    if p.last().len() == 0 {
        init
    } else {
        init.push(p.last())
    }
}

/// Splits `s` into its lines (`str::lines`).
pub fn lines_of(s: &Vec<char>) -> (res: Vec<Vec<char>>)
    ensures
        res@.len() == lines(s@).len(),
        forall|k: int| 0 <= k < res@.len() ==> #[trigger] res@[k]@ == lines(s@)[k],
{
    let parts = split_chars(s, '\n');
    proof { lemma_split_nonempty(s@, '\n'); }
    let ghost p = split(s@, '\n');
    let n = parts.len();
    let mut res: Vec<Vec<char>> = Vec::new();
    let mut i: usize = 0;
    while i + 1 < n
        invariant
            n == parts@.len(),
            n == p.len(),
            n >= 1,
            i + 1 <= n,
            forall|k: int| 0 <= k < n ==> #[trigger] parts@[k]@ == p[k],
            res@.len() == i,
            forall|k: int| 0 <= k < i ==> #[trigger] res@[k]@ == strip_cr(p[k]),
        decreases n - i,
    {
        let mut l = parts[i].clone();
        assert(l@ == p[i as int]);
        let m = l.len();
        if m > 0 && l[m - 1] == '\r' {
            let _ = l.pop();
        }
        res.push(l);
        i = i + 1;
    }
    if parts[n - 1].len() > 0 {
        res.push(parts[n - 1].clone());
    }
    proof {
        let init = p.drop_last().map_values(|l: Seq<char>| strip_cr(l));
        assert(init.len() == n - 1);
        assert forall|k: int| 0 <= k < n - 1 implies #[trigger] res@[k]@ == lines(s@)[k] by {
            assert(init[k] == strip_cr(p[k]));
        }
    }
    res
}

/// The parts before and after the first `c` in `s` (`str::split_once`).
pub open spec fn split_once(s: Seq<char>, c: char) -> Option<(Seq<char>, Seq<char>)>
    decreases s.len(),
{
    if s.len() == 0 {
        None
    } else if s[0] == c {
        Some((Seq::<char>::empty(), s.drop_first()))
    } else {
        match split_once(s.drop_first(), c) {
            Some((a, b)) => Some((seq![s[0]] + a, b)),
            None => None,
        }
    }
}

proof fn lemma_split_once_at(s: Seq<char>, c: char, i: int)
    requires
        0 <= i < s.len(),
        s[i] == c,
        forall|j: int| 0 <= j < i ==> s[j] != c,
    ensures
        split_once(s, c) == Some((s.take(i), s.skip(i + 1))),
    decreases i,
{
    if i > 0 {
        lemma_split_once_at(s.drop_first(), c, i - 1);
        assert(seq![s[0]] + s.drop_first().take(i - 1) =~= s.take(i));
        assert(s.drop_first().skip(i) =~= s.skip(i + 1));
    } else {
        assert(s.take(0) =~= Seq::<char>::empty());
        assert(s.skip(1) =~= s.drop_first());
    }
}

pub proof fn lemma_split_once_none(s: Seq<char>, c: char)
    requires
        forall|j: int| 0 <= j < s.len() ==> s[j] != c,
    ensures
        split_once(s, c) is None,
    decreases s.len(),
{
    if s.len() > 0 {
        lemma_split_once_none(s.drop_first(), c);
    }
}

/// Splits `s` at its first `c` (`str::split_once`).
pub fn split_once_chars(s: &Vec<char>, c: char) -> (res: Option<(Vec<char>, Vec<char>)>)
    ensures
        match res {
            Some((a, b)) => split_once(s@, c) == Some((a@, b@)),
            None => split_once(s@, c) is None,
        },
{
    let mut i: usize = 0;
    while i < s.len()
        invariant
            i <= s@.len(),
            forall|j: int| 0 <= j < i ==> s@[j] != c,
        decreases s@.len() - i,
    {
        if s[i] == c {
            proof { lemma_split_once_at(s@, c, i as int); }
            let mut a: Vec<char> = Vec::new();
            let mut k: usize = 0;
            while k < i
                invariant
                    k <= i < s@.len(),
                    a@ == s@.take(k as int),
                decreases i - k,
            {
                a.push(s[k]);
                k = k + 1;
                assert(a@ =~= s@.take(k as int));
            }
            let mut b: Vec<char> = Vec::new();
            let mut k: usize = i + 1;
            while k < s.len()
                invariant
                    i + 1 <= k <= s@.len(),
                    b@ == s@.subrange(i + 1, k as int),
                decreases s@.len() - k,
            {
                b.push(s[k]);
                k = k + 1;
                assert(b@ =~= s@.subrange(i + 1, k as int));
            }
            assert(b@ =~= s@.skip(i + 1));
            return Some((a, b));
        }
        i = i + 1;
    }
    proof { lemma_split_once_none(s@, c); }
    None
}


/// The Unicode `White_Space` characters, which `char::is_whitespace` accepts.
pub open spec fn is_whitespace(c: char) -> bool {
    let u = c as u32;
    ||| 0x09 <= u <= 0x0d
    ||| u == 0x20
    ||| u == 0x85
    ||| u == 0xa0
    ||| u == 0x1680
    ||| 0x2000 <= u <= 0x200a
    ||| u == 0x2028
    ||| u == 0x2029
    ||| u == 0x202f
    ||| u == 0x205f
    ||| u == 0x3000
}

/// Whether `c` is whitespace (`char::is_whitespace`).
pub fn is_whitespace_char(c: char) -> (res: bool)
    ensures
        res == is_whitespace(c),
{
    let u = c as u32;
    (0x09 <= u && u <= 0x0d) || u == 0x20 || u == 0x85 || u == 0xa0 || u == 0x1680 || (0x2000 <= u
        && u <= 0x200a) || u == 0x2028 || u == 0x2029 || u == 0x202f || u == 0x205f || u == 0x3000
}

/// The runs of non-whitespace characters of `s`, each run followed by at
/// most one empty piece that a later run fills.
pub open spec fn ws_pieces(s: Seq<char>) -> Seq<Seq<char>>
    decreases s.len(),
{
    if s.len() == 0 {
        seq![Seq::<char>::empty()]
    } else {
        let p = ws_pieces(s.drop_last());
        if is_whitespace(s.last()) {
            if p.last().len() == 0 {
                p
            } else {
                p.push(Seq::<char>::empty())
            }
        } else {
            p.update(p.len() - 1, p.last().push(s.last()))
        }
    }
}

/// The words of `s` as `str::split_whitespace` yields them.
pub open spec fn words(s: Seq<char>) -> Seq<Seq<char>> {
    drop_trailing_empty(ws_pieces(s))
}

proof fn lemma_ws_pieces_shape(s: Seq<char>)
    ensures
        ws_pieces(s).len() >= 1,
        forall|k: int| 0 <= k < ws_pieces(s).len() - 1 ==> #[trigger] ws_pieces(s)[k].len() > 0,
        forall|k: int, j: int|
            0 <= k < ws_pieces(s).len() && 0 <= j < ws_pieces(s)[k].len() ==> !is_whitespace(
                #[trigger] ws_pieces(s)[k][j],
            ),
    decreases s.len(),
{
    if s.len() > 0 {
        lemma_ws_pieces_shape(s.drop_last());
        let p = ws_pieces(s.drop_last());
        if !is_whitespace(s.last()) {
            let q = ws_pieces(s);
            assert forall|k: int, j: int|
                0 <= k < q.len() && 0 <= j < q[k].len() implies !is_whitespace(#[trigger] q[k][j]) by {
                if k == q.len() - 1 {
                    if j < p.last().len() {
                        assert(q[k][j] == p[k][j]);
                    }
                } else {
                    assert(q[k] == p[k]);
                }
            }
        }
    }
}

/// Every word is non-empty and holds no whitespace.
pub proof fn lemma_words_shape(s: Seq<char>)
    ensures
        forall|k: int| 0 <= k < words(s).len() ==> #[trigger] words(s)[k].len() > 0,
        forall|k: int, j: int|
            0 <= k < words(s).len() && 0 <= j < words(s)[k].len() ==> !is_whitespace(
                #[trigger] words(s)[k][j],
            ),
{
    lemma_ws_pieces_shape(s);
    let p = ws_pieces(s);
    assert forall|k: int, j: int|
        0 <= k < words(s).len() && 0 <= j < words(s)[k].len() implies !is_whitespace(
            #[trigger] words(s)[k][j],
        ) by {
        assert(words(s)[k] == p[k]);
        assert(p[k][j] == words(s)[k][j]);
    }
}

/// Splits `s` into its words (`str::split_whitespace`).
pub fn words_of(s: &Vec<char>) -> (res: Vec<Vec<char>>)
    ensures
        res@.len() == words(s@).len(),
        forall|k: int| 0 <= k < res@.len() ==> #[trigger] res@[k]@ == words(s@)[k],
{
    let mut done: Vec<Vec<char>> = Vec::new();
    let mut cur: Vec<char> = Vec::new();
    let mut i: usize = 0;
    while i < s.len()
        invariant
            i <= s@.len(),
            done@.len() + 1 == ws_pieces(s@.take(i as int)).len(),
            forall|k: int| 0 <= k < done@.len() ==> #[trigger] done@[k]@ == ws_pieces(s@.take(i as int))[k],
            cur@ == ws_pieces(s@.take(i as int)).last(),
        decreases s@.len() - i,
    {
        proof { lemma_ws_pieces_shape(s@.take(i as int)); }
        let c = s[i];
        assert(s@.take(i + 1).drop_last() =~= s@.take(i as int));
        if is_whitespace_char(c) {
            if cur.len() > 0 {
                done.push(cur);
                cur = Vec::new();
            }
        } else {
            cur.push(c);
        }
        i = i + 1;
    }
    assert(s@.take(s@.len() as int) =~= s@);
    proof { lemma_ws_pieces_shape(s@); }
    if cur.len() > 0 {
        done.push(cur);
    }
    done
}

/// The quote characters that are trimmed around an executable's name.
pub open spec fn is_quote(c: char) -> bool {
    c == '"' || c == '\''
}

pub open spec fn trim_start_quotes(s: Seq<char>) -> Seq<char>
    decreases s.len(),
{
    if s.len() > 0 && is_quote(s[0]) {
        trim_start_quotes(s.drop_first())
    } else {
        s
    }
}

pub open spec fn trim_end_quotes(s: Seq<char>) -> Seq<char>
    decreases s.len(),
{
    if s.len() > 0 && is_quote(s.last()) {
        trim_end_quotes(s.drop_last())
    } else {
        s
    }
}

/// `s` without the quotes at either end (`str::trim_matches` with `'"'` and `'\''`).
pub open spec fn trim_quotes(s: Seq<char>) -> Seq<char> {
    trim_end_quotes(trim_start_quotes(s))
}

/// Removes the quotes at either end of `s`.
pub fn trim_quotes_chars(s: &Vec<char>) -> (res: Vec<char>)
    ensures
        res@ == trim_quotes(s@),
        forall|c: char| res@.contains(c) ==> s@.contains(c),
{
    let n = s.len();
    let mut i: usize = 0;
    assert(s@.skip(0) =~= s@);
    while i < n && (s[i] == '"' || s[i] == '\'')
        invariant
            n == s@.len(),
            i <= n,
            trim_start_quotes(s@) == trim_start_quotes(s@.skip(i as int)),
        decreases n - i,
    {
        assert(s@.skip(i as int).drop_first() =~= s@.skip(i + 1));
        i = i + 1;
    }
    assert(trim_start_quotes(s@) == s@.skip(i as int));
    let mut j: usize = n;
    while j > i && (s[j - 1] == '"' || s[j - 1] == '\'')
        invariant
            n == s@.len(),
            i <= j <= n,
            trim_quotes(s@) == trim_end_quotes(s@.subrange(i as int, j as int)),
        decreases j,
    {
        assert(s@.subrange(i as int, j as int).drop_last() =~= s@.subrange(i as int, j - 1));
        j = j - 1;
    }
    assert(s@.skip(i as int) =~= s@.subrange(i as int, n as int));
    let mut res: Vec<char> = Vec::new();
    let mut k: usize = i;
    while k < j
        invariant
            i <= k <= j <= n,
            n == s@.len(),
            res@ == s@.subrange(i as int, k as int),
        decreases j - k,
    {
        res.push(s[k]);
        k = k + 1;
        assert(res@ =~= s@.subrange(i as int, k as int));
    }
    assert forall|c: char| res@.contains(c) implies s@.contains(c) by {
        let m = choose|m: int| 0 <= m < res@.len() && res@[m] == c;
        assert(s@[i + m] == c);
    }
    res
}

/// The part of `s` after its last `'/'` (`str::rsplit('/')`, first piece).
pub open spec fn last_segment(s: Seq<char>) -> Seq<char> {
    split(s, '/').last()
}

/// Returns the part of `s` after its last `'/'`.
pub fn last_segment_chars(s: &Vec<char>) -> (res: Vec<char>)
    ensures
        res@ == last_segment(s@),
        forall|c: char| res@.contains(c) ==> s@.contains(c),
{
    proof {
        lemma_split_nonempty(s@, '/');
        assert forall|c: char| last_segment(s@).contains(c) implies s@.contains(c) by {
            if !s@.contains(c) {
                lemma_split_excludes_char(s@, '/', c);
                let p = split(s@, '/');
                assert(p[p.len() - 1] == p.last());
            }
        }
    }
    let mut parts = split_chars(s, '/');
    proof { lemma_split_nonempty(s@, '/'); }
    let last = parts.pop();
    match last {
        Some(l) => l,
        None => Vec::new(),
    }
}


/// The pieces joined with `sep` between them (`[&str]::join`).
pub open spec fn join(parts: Seq<Seq<char>>, sep: char) -> Seq<char>
    decreases parts.len(),
{
    if parts.len() == 0 {
        Seq::<char>::empty()
    } else if parts.len() == 1 {
        parts[0]
    } else {
        join(parts.drop_last(), sep).push(sep) + parts.last()
    }
}

/// Each line followed by `'\n'`, one after the other.
pub open spec fn concat_lines(ls: Seq<Seq<char>>) -> Seq<char>
    decreases ls.len(),
{
    if ls.len() == 0 {
        Seq::<char>::empty()
    } else {
        concat_lines(ls.drop_last()) + ls.last().push('\n')
    }
}

/// Appends the characters of `s` to `out`.
pub fn extend_chars(out: &mut Vec<char>, s: &Vec<char>)
    ensures
        final(out)@ == old(out)@ + s@,
{
    let ghost start = out@;
    let mut i: usize = 0;
    while i < s.len()
        invariant
            i <= s@.len(),
            out@ == start + s@.take(i as int),
        decreases s@.len() - i,
    {
        out.push(s[i]);
        i = i + 1;
        assert(out@ =~= start + s@.take(i as int));
    }
    assert(s@.take(s@.len() as int) =~= s@);
}

/// Appends the strings of `parts` to `out`, with `sep` between them.
pub fn extend_joined(out: &mut Vec<char>, parts: &Vec<String>, sep: char)
    ensures
        final(out)@ == old(out)@ + join(parts@.map_values(|p: String| p@), sep),
{
    let ghost start = out@;
    let ghost all = parts@.map_values(|p: String| p@);
    let mut i: usize = 0;
    assert(all.take(0) =~= Seq::<Seq<char>>::empty());
    while i < parts.len()
        invariant
            i <= parts@.len(),
            all.len() == parts@.len(),
            forall|k: int| 0 <= k < all.len() ==> #[trigger] all[k] == parts@[k]@,
            out@ == start + join(all.take(i as int), sep),
        decreases parts@.len() - i,
    {
        if i > 0 {
            out.push(sep);
        }
        let p = chars_of(parts[i].as_str());
        extend_chars(out, &p);
        assert(all.take(i + 1).drop_last() =~= all.take(i as int));
        if i == 0 {
            assert(join(all.take(1), sep) == all[0]);
        }
        i = i + 1;
        assert(out@ =~= start + join(all.take(i as int), sep));
    }
    assert(all.take(parts@.len() as int) =~= all);
}

/// Appending characters without a separator extends the last piece.
pub proof fn lemma_split_append(x: Seq<char>, y: Seq<char>, sep: char)
    requires
        !y.contains(sep),
    ensures
        split(x + y, sep) == split(x, sep).update(split(x, sep).len() - 1, split(x, sep).last() + y),
    decreases y.len(),
{
    lemma_split_nonempty(x, sep);
    if y.len() == 0 {
        assert(x + y =~= x);
        assert(split(x, sep).last() + y =~= split(x, sep).last());
        assert(split(x, sep).update(split(x, sep).len() - 1, split(x, sep).last()) =~= split(x, sep));
    } else {
        let y0 = y.drop_last();
        assert(!y0.contains(sep)) by {
            if y0.contains(sep) {
                let j = choose|j: int| 0 <= j < y0.len() && y0[j] == sep;
                assert(y[j] == sep);
            }
        }
        lemma_split_append(x, y0, sep);
        assert((x + y).drop_last() =~= x + y0);
        assert((x + y).last() == y.last());
        assert(y.last() != sep) by {
            assert(y[y.len() - 1] == y.last());
        }
        let p = split(x, sep);
        let p1 = split(x + y0, sep);
        assert(p1.len() == p.len());
        assert(p1.last() == p.last() + y0);
        assert(split(x + y, sep) == p1.update(p1.len() - 1, p1.last().push(y.last())));
        assert((p.last() + y0).push(y.last()) =~= p.last() + y);
        assert(split(x + y, sep) =~= p.update(p.len() - 1, p.last() + y));
    }
}

/// Lines without `'\n'` joined by `concat_lines` split back into themselves.
pub proof fn lemma_split_concat_lines(ls: Seq<Seq<char>>)
    requires
        forall|k: int| 0 <= k < ls.len() ==> !(#[trigger] ls[k]).contains('\n'),
    ensures
        split(concat_lines(ls), '\n') == ls.push(Seq::<char>::empty()),
    decreases ls.len(),
{
    if ls.len() > 0 {
        let init = ls.drop_last();
        assert forall|k: int| 0 <= k < init.len() implies !(#[trigger] init[k]).contains('\n') by {
            assert(init[k] == ls[k]);
        }
        lemma_split_concat_lines(init);
        let c = concat_lines(init);
        let l = ls.last();
        assert(!l.contains('\n')) by {
            assert(ls[ls.len() - 1] == l);
        }
        lemma_split_append(c, l, '\n');
        assert(concat_lines(ls) == (c + l).push('\n'));
        assert((c + l).push('\n').drop_last() =~= c + l);
        let q = init.push(Seq::<char>::empty());
        assert(Seq::<char>::empty() + l =~= l);
        assert(q.update(q.len() - 1, q.last() + l) =~= ls);
        assert(split(concat_lines(ls), '\n') =~= ls.push(Seq::<char>::empty()));
    }
}

/// A line that `lines` gives back unchanged: no `'\n'` in it and no `'\r'` at its end.
pub open spec fn plain_line(l: Seq<char>) -> bool {
    !l.contains('\n') && !(l.len() > 0 && l.last() == '\r')
}

/// Reading the lines of written lines gives them back.
pub proof fn lemma_lines_concat_lines(ls: Seq<Seq<char>>)
    requires
        forall|k: int| 0 <= k < ls.len() ==> plain_line(#[trigger] ls[k]),
    ensures
        lines(concat_lines(ls)) == ls,
{
    assert forall|k: int| 0 <= k < ls.len() implies !(#[trigger] ls[k]).contains('\n') by {
        assert(plain_line(ls[k]));
    }
    lemma_split_concat_lines(ls);
    let p = ls.push(Seq::<char>::empty());
    assert(p.drop_last() =~= ls);
    assert forall|k: int| 0 <= k < ls.len() implies #[trigger] strip_cr(ls[k]) == ls[k] by {
        assert(plain_line(ls[k]));
    }
    assert(ls.map_values(|l: Seq<char>| strip_cr(l)) =~= ls);
}

/// Pieces without `sep` joined by `sep` split back into themselves.
pub proof fn lemma_split_join(parts: Seq<Seq<char>>, sep: char)
    requires
        parts.len() >= 1,
        forall|k: int| 0 <= k < parts.len() ==> !(#[trigger] parts[k]).contains(sep),
    ensures
        split(join(parts, sep), sep) == parts,
    decreases parts.len(),
{
    if parts.len() == 1 {
        assert(Seq::<char>::empty() + parts[0] =~= parts[0]);
        lemma_split_append(Seq::<char>::empty(), parts[0], sep);
        assert(split(Seq::<char>::empty(), sep) == seq![Seq::<char>::empty()]);
        assert(seq![Seq::<char>::empty()].update(0, Seq::<char>::empty() + parts[0]) =~= parts);
    } else {
        let init = parts.drop_last();
        assert forall|k: int| 0 <= k < init.len() implies !(#[trigger] init[k]).contains(sep) by {
            assert(init[k] == parts[k]);
        }
        lemma_split_join(init, sep);
        let j = join(init, sep).push(sep);
        assert(!parts.last().contains(sep)) by {
            assert(parts[parts.len() - 1] == parts.last());
        }
        lemma_split_append(j, parts.last(), sep);
        assert(j.drop_last() =~= join(init, sep));
        assert(split(j, sep) == init.push(Seq::<char>::empty()));
        let q = init.push(Seq::<char>::empty());
        assert(Seq::<char>::empty() + parts.last() =~= parts.last());
        assert(q.update(q.len() - 1, q.last() + parts.last()) =~= parts);
    }
}

/// Names joined by `sep`, the last one not empty, split back by `split_terminator`.
pub proof fn lemma_split_terminator_join(parts: Seq<Seq<char>>, sep: char)
    requires
        forall|k: int| 0 <= k < parts.len() ==> !(#[trigger] parts[k]).contains(sep),
        parts.len() == 0 || parts.last().len() > 0,
    ensures
        split_terminator(join(parts, sep), sep) == parts,
{
    if parts.len() == 0 {
        assert(split(Seq::<char>::empty(), sep) == seq![Seq::<char>::empty()]);
        assert(seq![Seq::<char>::empty()].drop_last() =~= parts);
    } else {
        lemma_split_join(parts, sep);
    }
}

/// The text before the first `c` and after it, where the text before holds no `c`.
pub proof fn lemma_split_once_concat(a: Seq<char>, c: char, b: Seq<char>)
    requires
        !a.contains(c),
    ensures
        split_once(a + seq![c] + b, c) == Some((a, b)),
{
    let s = a + seq![c] + b;
    assert forall|j: int| 0 <= j < a.len() implies s[j] != c by {
        assert(s[j] == a[j]);
    }
    lemma_split_once_at(s, c, a.len() as int);
    assert(s.take(a.len() as int) =~= a);
    assert(s.skip(a.len() as int + 1) =~= b);
}


/// A character that no piece holds, and that is not the separator, is not in the joined text.
pub proof fn lemma_join_excludes(parts: Seq<Seq<char>>, sep: char, c: char)
    requires
        c != sep,
        forall|k: int| 0 <= k < parts.len() ==> !(#[trigger] parts[k]).contains(c),
    ensures
        !join(parts, sep).contains(c),
    decreases parts.len(),
{
    if parts.len() == 1 {
        assert(!parts[0].contains(c));
    } else if parts.len() > 1 {
        let init = parts.drop_last();
        assert forall|k: int| 0 <= k < init.len() implies !(#[trigger] init[k]).contains(c) by {
            assert(init[k] == parts[k]);
        }
        lemma_join_excludes(init, sep, c);
        let j = join(init, sep).push(sep);
        let l = parts.last();
        assert(!l.contains(c)) by {
            assert(parts[parts.len() - 1] == l);
        }
        assert(!(j + l).contains(c)) by {
            if (j + l).contains(c) {
                let i = choose|i: int| 0 <= i < (j + l).len() && (j + l)[i] == c;
                if i < j.len() {
                    if i < join(init, sep).len() {
                        assert(join(init, sep)[i] == c);
                    }
                } else {
                    assert(l[i - j.len()] == c);
                }
            }
        }
    }
}

/// The joined text ends as its last piece does, when that piece is not empty.
pub proof fn lemma_join_last(parts: Seq<Seq<char>>, sep: char)
    requires
        parts.len() > 0,
        parts.last().len() > 0,
    ensures
        join(parts, sep).len() > 0,
        join(parts, sep).last() == parts.last().last(),
{
    if parts.len() > 1 {
        let j = join(parts.drop_last(), sep).push(sep);
        assert((j + parts.last()).last() == parts.last().last());
    }
}

/// One line written is the line and its `'\n'`.
pub proof fn lemma_concat_lines_single(l: Seq<char>)
    ensures
        concat_lines(seq![l]) == l.push('\n'),
{
    let ls = seq![l];
    assert(ls.drop_last() =~= Seq::<Seq<char>>::empty());
    assert(concat_lines(ls.drop_last()) == Seq::<char>::empty());
    assert(Seq::<char>::empty() + l.push('\n') =~= l.push('\n'));
}

/// Writing two lists of lines one after the other is writing their concatenation.
pub proof fn lemma_concat_lines_append(a: Seq<Seq<char>>, b: Seq<Seq<char>>)
    ensures
        concat_lines(a + b) == concat_lines(a) + concat_lines(b),
    decreases b.len(),
{
    if b.len() == 0 {
        assert(a + b =~= a);
        assert(concat_lines(a) + concat_lines(b) =~= concat_lines(a));
    } else {
        lemma_concat_lines_append(a, b.drop_last());
        assert((a + b).drop_last() =~= a + b.drop_last());
        assert((a + b).last() == b.last());
        assert(concat_lines(a + b) =~= concat_lines(a) + concat_lines(b));
    }
}


/// The parts before and after the first occurrence of `pat` in `s`
/// (`str::split_once` with a string pattern).
pub open spec fn split_once_pat(s: Seq<char>, pat: Seq<char>) -> Option<(Seq<char>, Seq<char>)>
    decreases s.len(),
{
    if s.len() < pat.len() {
        None
    } else if s.take(pat.len() as int) == pat {
        Some((Seq::<char>::empty(), s.skip(pat.len() as int)))
    } else if s.len() == 0 {
        None
    } else {
        match split_once_pat(s.drop_first(), pat) {
            Some((a, b)) => Some((seq![s[0]] + a, b)),
            None => None,
        }
    }
}

/// `pat` occurs in `s` at `j`.
pub open spec fn occurs(s: Seq<char>, pat: Seq<char>, j: int) -> bool {
    0 <= j && j + pat.len() <= s.len() && s.subrange(j, j + pat.len()) == pat
}

proof fn lemma_split_once_pat_at(s: Seq<char>, pat: Seq<char>, i: int)
    requires
        0 <= i,
        i + pat.len() <= s.len(),
        s.subrange(i, i + pat.len()) == pat,
        forall|j: int| 0 <= j < i ==> !#[trigger] occurs(s, pat, j),
    ensures
        split_once_pat(s, pat) == Some((s.take(i), s.skip(i + pat.len()))),
    decreases i,
{
    if i > 0 {
        assert(!occurs(s, pat, 0));
        assert(s.take(pat.len() as int) =~= s.subrange(0, pat.len() as int));
        let t = s.drop_first();
        assert forall|j: int| 0 <= j < i - 1 implies !#[trigger] occurs(t, pat, j) by {
            assert(!occurs(s, pat, j + 1));
            assert(t.subrange(j, j + pat.len()) =~= s.subrange(j + 1, j + 1 + pat.len()));
        }
        assert(t.subrange(i - 1, i - 1 + pat.len()) =~= s.subrange(i, i + pat.len()));
        lemma_split_once_pat_at(t, pat, i - 1);
        assert(seq![s[0]] + t.take(i - 1) =~= s.take(i));
        assert(t.skip(i - 1 + pat.len()) =~= s.skip(i + pat.len()));
    } else {
        assert(s.take(pat.len() as int) =~= s.subrange(0, pat.len() as int));
        assert(s.take(0) =~= Seq::<char>::empty());
    }
}

proof fn lemma_split_once_pat_none(s: Seq<char>, pat: Seq<char>)
    requires
        pat.len() > 0,
        forall|j: int| 0 <= j ==> !#[trigger] occurs(s, pat, j),
    ensures
        split_once_pat(s, pat) is None,
    decreases s.len(),
{
    if s.len() >= pat.len() {
        assert(s.take(pat.len() as int) =~= s.subrange(0, pat.len() as int));
        assert(!occurs(s, pat, 0));
        let t = s.drop_first();
        assert forall|j: int| 0 <= j implies !#[trigger] occurs(t, pat, j) by {
            assert(!occurs(s, pat, j + 1));
            if j + pat.len() <= t.len() {
                assert(t.subrange(j, j + pat.len()) =~= s.subrange(j + 1, j + 1 + pat.len()));
            }
        }
        lemma_split_once_pat_none(t, pat);
    }
}

/// Whether `pat` occurs in `s` at `i`.
fn occurs_at(s: &Vec<char>, pat: &Vec<char>, i: usize) -> (res: bool)
    requires
        i + pat@.len() <= s@.len(),
    ensures
        res == (s@.subrange(i as int, i + pat@.len()) == pat@),
{
    let m = s.len();
    let mut k: usize = 0;
    while k < pat.len()
        invariant
            k <= pat@.len(),
            m == s@.len(),
            i + pat@.len() <= s@.len(),
            forall|m: int| 0 <= m < k ==> s@[i + m] == pat@[m],
        decreases pat@.len() - k,
    {
        if s[i + k] != pat[k] {
            assert(s@.subrange(i as int, i + pat@.len())[k as int] != pat@[k as int]);
            return false;
        }
        k = k + 1;
    }
    assert(s@.subrange(i as int, i + pat@.len()) =~= pat@);
    true
}

/// Splits `s` at the first occurrence of `pat`.
pub fn split_once_pat_chars(s: &Vec<char>, pat: &Vec<char>) -> (res: Option<(Vec<char>, Vec<char>)>)
    requires
        pat@.len() > 0,
    ensures
        match res {
            Some((a, b)) => split_once_pat(s@, pat@) == Some((a@, b@)),
            None => split_once_pat(s@, pat@) is None,
        },
{
    let n = pat.len();
    let m = s.len();
    let mut i: usize = 0;
    while i < m && n <= m - i
        invariant
            n == pat@.len(),
            m == s@.len(),
            n > 0,
            i <= s@.len(),
            forall|j: int| 0 <= j < i ==> !#[trigger] occurs(s@, pat@, j),
        decreases s@.len() - i,
    {
        if occurs_at(s, pat, i) {
            proof { lemma_split_once_pat_at(s@, pat@, i as int); }
            let mut a: Vec<char> = Vec::new();
            let mut k: usize = 0;
            while k < i
                invariant
                    k <= i,
                    i + n <= s@.len(),
                    a@ == s@.take(k as int),
                decreases i - k,
            {
                a.push(s[k]);
                k = k + 1;
                assert(a@ =~= s@.take(k as int));
            }
            let mut b: Vec<char> = Vec::new();
            let mut k: usize = i + n;
            while k < s.len()
                invariant
                    i + n <= k <= s@.len(),
                    b@ == s@.subrange(i + n, k as int),
                decreases s@.len() - k,
            {
                b.push(s[k]);
                k = k + 1;
                assert(b@ =~= s@.subrange(i + n, k as int));
            }
            assert(b@ =~= s@.skip(i + n));
            return Some((a, b));
        }
        i = i + 1;
    }
    proof {
        assert forall|j: int| 0 <= j implies !#[trigger] occurs(s@, pat@, j) by {
            if j >= i {
                assert(j + n > s@.len());
            }
        }
        lemma_split_once_pat_none(s@, pat@);
    }
    None
}

} // verus!
