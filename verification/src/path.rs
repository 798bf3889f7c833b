//! `/`-separated path operations, stated the way `std::path::Path` treats a
//! path on Unix: `/` is the only separator, empty and `.` segments are
//! normalized away (a leading `.` aside), `..` is a parent component.
use vstd::prelude::*;
use crate::text::{push_all, slice_chars, string_of};

verus! {

/// The index of the last `c` in `s`, or -1.
pub open spec fn last_index_of(s: Seq<char>, c: char) -> int
    decreases s.len(),
{
    if s.len() == 0 {
        -1
    } else if s.last() == c {
        s.len() - 1
    } else {
        last_index_of(s.drop_last(), c)
    }
}

pub proof fn lemma_last_index_of(s: Seq<char>, c: char)
    ensures
        -1 <= last_index_of(s, c) < s.len(),
        last_index_of(s, c) >= 0 ==> s[last_index_of(s, c)] == c,
        forall|k: int| last_index_of(s, c) < k < s.len() ==> s[k] != c,
    decreases s.len(),
{
    if s.len() > 0 && s.last() != c {
        lemma_last_index_of(s.drop_last(), c);
        assert forall|k: int| last_index_of(s, c) < k < s.len() implies s[k] != c by {
            if k < s.len() - 1 {
                assert(s[k] == s.drop_last()[k]);
            }
        }
    }
}

pub open spec fn dot() -> Seq<char> {
    seq!['.']
}

pub open spec fn dot_dot() -> Seq<char> {
    seq!['.', '.']
}

/// `Path::file_name`: the last component when it is a normal one.
pub open spec fn file_name(s: Seq<char>) -> Option<Seq<char>>
    decreases s.len(),
{
    let i = last_index_of(s, '/');
    let seg = s.subrange(i + 1, s.len() as int);
    if seg.len() == 0 || seg == dot() {
        if i < 0 {
            None
        } else {
            proof {
                lemma_last_index_of(s, '/');
            }
            file_name(s.subrange(0, i))
        }
    } else if seg == dot_dot() {
        None
    } else {
        Some(seg)
    }
}

/// `Path::extension` of a file name: the part after the last `.`, unless the
/// name has no `.` other than a leading one.
pub open spec fn extension_of(name: Seq<char>) -> Option<Seq<char>> {
    let i = last_index_of(name, '.');
    if name == dot_dot() || i <= 0 {
        None
    } else {
        Some(name.subrange(i + 1, name.len() as int))
    }
}

/// The last `.` of `b` stands at `k` when nothing after `k` is a `.`.
pub proof fn lemma_last_dot(b: Seq<char>, k: int)
    requires
        0 <= k < b.len(),
        b[k] == '.',
        forall|j: int| k < j < b.len() ==> b[j] != '.',
    ensures
        last_index_of(b, '.') == k,
    decreases b.len(),
{
    if b.len() - 1 != k {
        lemma_last_dot(b.drop_last(), k);
    }
}

/// A name longer than `..` whose last `.` stands at `k > 0` has the
/// extension that follows it.
pub proof fn lemma_extension_at(b: Seq<char>, k: int)
    requires
        0 < k < b.len(),
        b.len() > 2,
        b[k] == '.',
        forall|j: int| k < j < b.len() ==> b[j] != '.',
    ensures
        extension_of(b) == Some(b.subrange(k + 1, b.len() as int)),
{
    lemma_last_dot(b, k);
    assert(b != dot_dot());
}

/// `Path::file_stem` of a file name.
pub open spec fn file_stem_of(name: Seq<char>) -> Seq<char> {
    let i = last_index_of(name, '.');
    if name == dot_dot() || i <= 0 {
        name
    } else {
        name.subrange(0, i)
    }
}

/// `Path::new(s).extension()`.
pub open spec fn path_extension(s: Seq<char>) -> Option<Seq<char>> {
    match file_name(s) {
        Some(n) => extension_of(n),
        None => None,
    }
}

/// `PathBuf::join` (`push` on Unix): an absolute `rel` replaces `base`;
/// otherwise one `/` goes between them unless `base` is empty or ends in `/`.
pub open spec fn path_join(base: Seq<char>, rel: Seq<char>) -> Seq<char> {
    if rel.len() > 0 && rel[0] == '/' {
        rel
    } else if base.len() == 0 || base.last() == '/' {
        base + rel
    } else {
        base + seq!['/'] + rel
    }
}

pub fn last_index_exec(s: &[char], n: usize, c: char) -> (r: Option<usize>)
    requires
        n <= s.len(),
    ensures
        r matches Some(i) ==> last_index_of(s@.take(n as int), c) == i as int && i < n,
        r is None ==> last_index_of(s@.take(n as int), c) == -1,
{
    let mut k = n;
    while k > 0
        invariant
            k <= n <= s.len(),
            last_index_of(s@.take(n as int), c) == last_index_of(s@.take(k as int), c),
        decreases k,
    {
        if s[k - 1] == c {
            return Some(k - 1);
        }
        assert(s@.take(k as int).drop_last() =~= s@.take(k - 1));
        k = k - 1;
    }
    None
}

pub fn is_dot(s: &[char]) -> (r: bool)
    ensures
        r == (s@ == dot()),
{
    if s.len() == 1 && s[0] == '.' {
        assert(s@ =~= dot());
        true
    } else {
        false
    }
}

pub fn is_dot_dot(s: &[char]) -> (r: bool)
    ensures
        r == (s@ == dot_dot()),
{
    if s.len() == 2 && s[0] == '.' && s[1] == '.' {
        assert(s@ =~= dot_dot());
        true
    } else {
        false
    }
}

/// `Path::file_name`.
pub fn file_name_exec(s: &[char]) -> (r: Option<Vec<char>>)
    ensures
        r matches Some(v) ==> file_name(s@) == Some(v@),
        r is None ==> file_name(s@) is None,
{
    let mut n = s.len();
    assert(s@.take(n as int) =~= s@);
    loop
        invariant
            n <= s.len(),
            file_name(s@) == file_name(s@.take(n as int)),
        decreases n,
    {
        let ghost t = s@.take(n as int);
        let li = last_index_exec(s, n, '/');
        let start: usize = match li {
            Some(i) => i + 1,
            None => 0,
        };
        proof {
            lemma_last_index_of(t, '/');
        }
        let seg = slice_chars(s, start, n);
        assert(seg@ =~= t.subrange(last_index_of(t, '/') + 1, t.len() as int));
        if seg.len() == 0 || is_dot(&seg) {
            match li {
                None => {
                    return None;
                },
                Some(i) => {
                    assert(t.subrange(0, i as int) =~= s@.take(i as int));
                    n = i;
                },
            }
        } else if is_dot_dot(&seg) {
            return None;
        } else {
            return Some(seg);
        }
    }
}

/// `Path::extension` of a file name.
pub fn extension_exec(name: &[char]) -> (r: Option<Vec<char>>)
    ensures
        r matches Some(v) ==> extension_of(name@) == Some(v@),
        r is None ==> extension_of(name@) is None,
{
    assert(name@.take(name.len() as int) =~= name@);
    let li = last_index_exec(name, name.len(), '.');
    proof {
        lemma_last_index_of(name@, '.');
    }
    if is_dot_dot(name) {
        return None;
    }
    match li {
        None => None,
        Some(i) => {
            if i == 0 {
                None
            } else {
                Some(slice_chars(name, i + 1, name.len()))
            }
        },
    }
}

/// `Path::file_stem` of a file name.
pub fn file_stem_exec(name: &[char]) -> (r: Vec<char>)
    ensures
        r@ == file_stem_of(name@),
{
    assert(name@.take(name.len() as int) =~= name@);
    let li = last_index_exec(name, name.len(), '.');
    proof {
        lemma_last_index_of(name@, '.');
    }
    if is_dot_dot(name) {
        return slice_chars(name, 0, name.len());
    }
    match li {
        None => slice_chars(name, 0, name.len()),
        Some(i) => {
            if i == 0 {
                slice_chars(name, 0, name.len())
            } else {
                slice_chars(name, 0, i)
            }
        },
    }
}

/// `Path::new(s).extension()`.
pub fn path_extension_exec(s: &[char]) -> (r: Option<Vec<char>>)
    ensures
        r matches Some(v) ==> path_extension(s@) == Some(v@),
        r is None ==> path_extension(s@) is None,
{
    match file_name_exec(s) {
        Some(n) => extension_exec(&n),
        None => None,
    }
}

/// `Path::join` on `/`-separated paths.
pub fn path_join_exec(base: &[char], rel: &[char]) -> (r: Vec<char>)
    ensures
        r@ == path_join(base@, rel@),
{
    if rel.len() > 0 && rel[0] == '/' {
        return slice_chars(rel, 0, rel.len());
    }
    let mut r = slice_chars(base, 0, base.len());
    if !(base.len() == 0 || base[base.len() - 1] == '/') {
        r.push('/');
    }
    push_all(&mut r, rel);
    r
}


/// The index of the first `c` at or after `i`, or the length.
pub open spec fn index_of_from(s: Seq<char>, c: char, i: int) -> int
    decreases s.len() - i,
{
    if i >= s.len() {
        s.len() as int
    } else if s[i] == c {
        i
    } else {
        index_of_from(s, c, i + 1)
    }
}

pub proof fn lemma_index_of_from(s: Seq<char>, c: char, i: int)
    requires
        0 <= i <= s.len(),
    ensures
        i <= index_of_from(s, c, i) <= s.len(),
        forall|k: int| i <= k < index_of_from(s, c, i) ==> s[k] != c,
    decreases s.len() - i,
{
    if i < s.len() && s[i] != c {
        lemma_index_of_from(s, c, i + 1);
    }
}

/// The components of the path text from `i` on (a segment boundary): each
/// `/`-separated segment, empty ones dropped, `.` dropped unless it is the
/// first segment of a relative path.
pub open spec fn segments_from(s: Seq<char>, i: int, first: bool) -> Seq<Seq<char>>
    decreases s.len() - i,
{
    if i < 0 || i > s.len() {
        seq![]
    } else {
        let j = index_of_from(s, '/', i);
        let seg = s.subrange(i, j);
        let head: Seq<Seq<char>> = if seg.len() > 0 && (seg != dot() || first) {
            seq![seg]
        } else {
            seq![]
        };
        if j >= s.len() {
            head
        } else {
            proof {
                lemma_index_of_from(s, '/', i);
            }
            head + segments_from(s, j + 1, false)
        }
    }
}

/// `Path::components`, each given as its text: `/` for the root, `.` for a
/// leading current directory, `..` for a parent, or the normal name.
pub open spec fn components(s: Seq<char>) -> Seq<Seq<char>> {
    if s.len() > 0 && s[0] == '/' {
        seq![seq!['/']] + segments_from(s, 1, false)
    } else {
        segments_from(s, 0, true)
    }
}

/// Component texts joined by `/`.
pub open spec fn join_slash(parts: Seq<Seq<char>>) -> Seq<char>
    decreases parts.len(),
{
    if parts.len() == 0 {
        seq![]
    } else if parts.len() == 1 {
        parts[0]
    } else {
        join_slash(parts.drop_last()) + seq!['/'] + parts.last()
    }
}

/// `full` relative to `root`, its remaining components joined by `/`, when
/// `root`'s components are a prefix of `full`'s (`Path::strip_prefix`).
pub open spec fn rel_path_spec(root: Seq<char>, full: Seq<char>) -> Option<Seq<char>> {
    rel_components(components(root), components(full))
}

/// The components `fc` relative to the prefix `rc`, joined by `/`.
pub open spec fn rel_components(rc: Seq<Seq<char>>, fc: Seq<Seq<char>>) -> Option<Seq<char>> {
    if rc.len() <= fc.len() && fc.take(rc.len() as int) == rc {
        Some(join_slash(fc.skip(rc.len() as int)))
    } else {
        None
    }
}

pub open spec fn comp_views(v: Seq<Vec<char>>) -> Seq<Seq<char>> {
    v.map_values(|x: Vec<char>| x@)
}

/// `Path::components`, as texts.
pub fn components_exec(s: &[char]) -> (r: Vec<Vec<char>>)
    ensures
        comp_views(r@) == components(s@),
{
    let mut out: Vec<Vec<char>> = Vec::new();
    let mut i: usize = 0;
    let mut first = true;
    if s.len() > 0 && s[0] == '/' {
        let mut root: Vec<char> = Vec::new();
        root.push('/');
        out.push(root);
        i = 1;
        first = false;
    }
    assert(comp_views(out@) + segments_from(s@, i as int, first) =~= components(s@));
    loop
        invariant
            i <= s.len(),
            comp_views(out@) + segments_from(s@, i as int, first) == components(s@),
        decreases s.len() - i,
    {
        let ghost before = comp_views(out@);
        let mut j = i;
        while j < s.len() && s[j] != '/'
            invariant
                i <= j <= s.len(),
                index_of_from(s@, '/', i as int) == index_of_from(s@, '/', j as int),
            decreases s.len() - j,
        {
            j = j + 1;
        }
        let seg = slice_chars(s, i, j);
        let keep = seg.len() > 0 && (!is_dot(&seg) || first);
        let ghost segv = seg@;
        if keep {
            out.push(seg);
        }
        let ghost head: Seq<Seq<char>> = if keep { seq![segv] } else { seq![] };
        assert(comp_views(out@) =~= before + head);
        if j >= s.len() {
            assert(comp_views(out@) =~= components(s@));
            return out;
        }
        assert(before + segments_from(s@, i as int, first) == before + (head + segments_from(s@, j + 1, false)));
        assert(comp_views(out@) + segments_from(s@, j + 1, false) =~= before + (head + segments_from(s@, j + 1, false)));
        i = j + 1;
        first = false;
    }
}

/// Component texts joined by `/`.
pub fn join_slash_exec(parts: &[Vec<char>]) -> (r: Vec<char>)
    ensures
        r@ == join_slash(comp_views(parts@)),
{
    let mut out: Vec<char> = Vec::new();
    let mut k: usize = 0;
    assert(comp_views(parts@).take(0) =~= Seq::<Seq<char>>::empty());
    while k < parts.len()
        invariant
            k <= parts.len(),
            out@ == join_slash(comp_views(parts@).take(k as int)),
        decreases parts.len() - k,
    {
        let ghost pv = comp_views(parts@);
        assert(pv.take(k + 1).drop_last() =~= pv.take(k as int));
        if k > 0 {
            out.push('/');
        } else {
            assert(pv.take(1) =~= seq![pv[0]]);
        }
        push_all(&mut out, &parts[k]);
        k = k + 1;
        assert(out@ =~= join_slash(pv.take(k as int)));
    }
    assert(comp_views(parts@).take(k as int) =~= comp_views(parts@));
    out
}

fn comps_prefix(rc: &[Vec<char>], fc: &[Vec<char>]) -> (r: bool)
    ensures
        r == (rc@.len() <= fc@.len() && comp_views(fc@).take(rc@.len() as int) == comp_views(rc@)),
{
    if rc.len() > fc.len() {
        return false;
    }
    let mut k: usize = 0;
    while k < rc.len()
        invariant
            rc@.len() <= fc@.len(),
            k <= rc.len(),
            forall|m: int| 0 <= m < k ==> #[trigger] comp_views(fc@)[m] == comp_views(rc@)[m],
        decreases rc.len() - k,
    {
        if !crate::text::eq_chars(&rc[k], &fc[k]) {
            assert(comp_views(fc@).take(rc@.len() as int)[k as int] != comp_views(rc@)[k as int]);
            return false;
        }
        k = k + 1;
    }
    assert(comp_views(fc@).take(rc@.len() as int) =~= comp_views(rc@));
    true
}

/// `full` relative to `root`, components joined by `/`.
pub fn rel_path_posix(root: &str, full: &str) -> (r: Option<String>)
    ensures
        r matches Some(p) ==> rel_path_spec(root@, full@) == Some(p@),
        r is None ==> rel_path_spec(root@, full@) is None,
{
    let rc = components_exec(&crate::text::chars_of(root));
    let fc = components_exec(&crate::text::chars_of(full));
    match rel_components_exec(&rc, &fc) {
        Some(v) => Some(string_of(&v)),
        None => None,
    }
}

/// The components `fc` relative to the prefix `rc`, joined by `/`.
pub fn rel_components_exec(rc: &[Vec<char>], fc: &[Vec<char>]) -> (r: Option<Vec<char>>)
    ensures
        r matches Some(p) ==> rel_components(comp_views(rc@), comp_views(fc@)) == Some(p@),
        r is None ==> rel_components(comp_views(rc@), comp_views(fc@)) is None,
{
    if !comps_prefix(rc, fc) {
        return None;
    }
    let mut rest: Vec<Vec<char>> = Vec::new();
    let mut k = rc.len();
    while k < fc.len()
        invariant
            rc@.len() <= k <= fc@.len(),
            comp_views(rest@) == comp_views(fc@).subrange(rc@.len() as int, k as int),
        decreases fc.len() - k,
    {
        let c = crate::text::slice_chars(&fc[k], 0, fc[k].len());
        assert(c@ =~= fc@[k as int]@);
        let ghost before = comp_views(rest@);
        rest.push(c);
        assert(comp_views(rest@) =~= before.push(comp_views(fc@)[k as int]));
        k = k + 1;
        assert(comp_views(rest@) =~= comp_views(fc@).subrange(rc@.len() as int, k as int));
    }
    assert(comp_views(fc@).subrange(rc@.len() as int, k as int) =~= comp_views(fc@).skip(rc@.len() as int));
    let j = join_slash_exec(&rest);
    Some(j)
}

} // verus!
