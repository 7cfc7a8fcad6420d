//! Paths as strings, with the rules that `std::path` follows on Unix for the
//! few operations the pipeline needs: joining, the file name, its stem and
//! extension, replacing the extension, and comparing paths by their
//! components.

use vstd::prelude::*;

verus! {

/// The path that results from pushing `comp` onto `base`: an absolute `comp`
/// replaces `base`; otherwise a separator is put between them unless `base` is
/// empty or already ends in one.
pub open spec fn join_spec(base: Seq<char>, comp: Seq<char>) -> Seq<char> {
    if comp.len() > 0 && comp[0] == '/' {
        comp
    } else if base.len() == 0 || base.last() == '/' {
        base + comp
    } else {
        base + seq!['/'] + comp
    }
}

/// Index of the last occurrence of `c` in `s`, or -1.
pub open spec fn last_index_of(s: Seq<char>, c: char) -> int
    decreases s.len(),
{
    if s.len() == 0 {
        -1
    } else if s.last() == c {
        s.len() - 1
    } else {
        last_index_of(s.drop_last(), c)
    }
}

/// `s` without its trailing separators.
pub open spec fn trim_separators(s: Seq<char>) -> Seq<char>
    decreases s.len(),
{
    if s.len() > 0 && s.last() == '/' {
        trim_separators(s.drop_last())
    } else {
        s
    }
}

pub proof fn lemma_last_index_of_bounds(s: Seq<char>, c: char)
    ensures
        -1 <= last_index_of(s, c) < s.len(),
        last_index_of(s, c) >= 0 ==> s[last_index_of(s, c)] == c,
        forall|k: int| last_index_of(s, c) < k < s.len() ==> s[k] != c,
    decreases s.len(),
{
    if s.len() > 0 && s.last() != c {
        lemma_last_index_of_bounds(s.drop_last(), c);
        assert forall|k: int| last_index_of(s, c) < k < s.len() implies s[k] != c by {
            if k < s.len() - 1 {
                assert(s[k] == s.drop_last()[k]);
            }
        }
    }
}

pub proof fn lemma_trim_is_prefix(s: Seq<char>)
    ensures
        trim_separators(s).len() <= s.len(),
        trim_separators(s) =~= s.subrange(0, trim_separators(s).len() as int),
        trim_separators(s).len() > 0 ==> trim_separators(s).last() != '/',
    decreases s.len(),
{
    if s.len() > 0 && s.last() == '/' {
        lemma_trim_is_prefix(s.drop_last());
    }
}

/// Where the file name of `p` stands in `p`, as a range of indices: the last
/// normal component, once trailing separators and `.` components are dropped.
/// A path that ends in `..`, the root, an empty path and `.` have none.
pub open spec fn name_range(p: Seq<char>) -> Option<(int, int)>
    decreases p.len(),
{
    let q = trim_separators(p);
    if q.len() == 0 {
        None
    } else {
        let i = last_index_of(q, '/');
        let comp = q.subrange(i + 1, q.len() as int);
        if comp =~= seq!['.'] {
            if i >= 0 {
                proof {
                    lemma_trim_is_prefix(p);
                    lemma_last_index_of_bounds(q, '/');
                }
                name_range(q.subrange(0, i))
            } else {
                None
            }
        } else if comp =~= seq!['.', '.'] {
            None
        } else {
            Some((i + 1, q.len() as int))
        }
    }
}

/// The file name of `p`, as `Path::file_name` gives it.
pub open spec fn file_name_spec(p: Seq<char>) -> Option<Seq<char>> {
    match name_range(p) {
        Some((s, e)) => Some(p.subrange(s, e)),
        None => None,
    }
}

/// Length of the stem of a file name: up to its last dot, unless that dot is
/// the first character or there is none.
pub open spec fn stem_len(name: Seq<char>) -> int {
    let i = last_index_of(name, '.');
    if i <= 0 {
        name.len() as int
    } else {
        i
    }
}

/// The stem of the file name of `p`, as `Path::file_stem` gives it.
pub open spec fn file_stem_spec(p: Seq<char>) -> Option<Seq<char>> {
    match file_name_spec(p) {
        Some(n) => Some(n.subrange(0, stem_len(n))),
        None => None,
    }
}

/// The extension of the file name of `p`, as `Path::extension` gives it.
pub open spec fn extension_spec(p: Seq<char>) -> Option<Seq<char>> {
    match file_name_spec(p) {
        Some(n) => if last_index_of(n, '.') <= 0 {
            None
        } else {
            Some(n.subrange(last_index_of(n, '.') + 1, n.len() as int))
        },
        None => None,
    }
}

/// `p` with the extension of its file name replaced by `ext`, as
/// `Path::with_extension` gives it: the path is cut right after the stem and,
/// for a non-empty `ext`, a dot and `ext` are put there. A path without a file
/// name stays as it is.
pub open spec fn with_extension_spec(p: Seq<char>, ext: Seq<char>) -> Seq<char> {
    match name_range(p) {
        Some((s, e)) => {
            let cut = s + stem_len(p.subrange(s, e));
            p.subrange(0, cut) + if ext.len() == 0 {
                Seq::<char>::empty()
            } else {
                seq!['.'] + ext
            }
        },
        None => p,
    }
}

/// Joins `comp` onto `base` as `Path::join` does.
pub fn join(base: &str, comp: &str) -> (res: String)
    ensures
        res@ == join_spec(base@, comp@),
{
    let comp_len = comp.unicode_len();
    if comp_len > 0 && comp.get_char(0) == '/' {
        return String::from_str(comp);
    }
    let base_len = base.unicode_len();
    let mut res = String::from_str(base);
    if base_len > 0 && base.get_char(base_len - 1) != '/' {
        let sep = "/";
        proof {
            reveal_strlit("/");
        }
        res.append(sep);
    }
    res.append(comp);
    res
}

proof fn lemma_name_range_bounds(p: Seq<char>)
    ensures
        name_range(p) matches Some((s, e)) ==> 0 <= s < e <= p.len(),
    decreases p.len(),
{
    let q = trim_separators(p);
    lemma_trim_is_prefix(p);
    lemma_last_index_of_bounds(q, '/');
    if q.len() > 0 {
        let i = last_index_of(q, '/');
        let comp = q.subrange(i + 1, q.len() as int);
        if comp =~= seq!['.'] && i >= 0 {
            lemma_name_range_bounds(q.subrange(0, i));
        }
    }
}

/// The range of indices of the file name of `p`, if it has one.
pub fn name_range_of(p: &str) -> (res: Option<(usize, usize)>)
    ensures
        res matches Some((s, e)) ==> name_range(p@) == Some((s as int, e as int)) && s < e
            <= p@.len(),
        res is None <==> name_range(p@) is None,
{
    proof {
        lemma_name_range_bounds(p@);
    }
    let len = p.unicode_len();
    let mut end = len;
    assert(p@.subrange(0, len as int) =~= p@);
    loop
        invariant
            end <= len == p@.len(),
            name_range(p@) == name_range(p@.subrange(0, end as int)),
        decreases end,
    {
        let ghost pe = p@.subrange(0, end as int);
        // drop trailing separators
        let mut t = end;
        while t > 0 && p.get_char(t - 1) == '/'
            invariant
                t <= end <= len == p@.len(),
                pe == p@.subrange(0, end as int),
                trim_separators(pe) == trim_separators(p@.subrange(0, t as int)),
            decreases t,
        {
            assert(p@.subrange(0, t as int).drop_last() =~= p@.subrange(0, t - 1));
            t = t - 1;
        }
        let ghost q = p@.subrange(0, t as int);
        assert(trim_separators(q) == q) by {
            if t > 0 {
                assert(q.last() == p@[t - 1]);
            }
        }
        if t == 0 {
            return None;
        }
        // find the start of the last component
        let mut i = t;
        while i > 0 && p.get_char(i - 1) != '/'
            invariant
                i <= t <= len == p@.len(),
                q == p@.subrange(0, t as int),
                last_index_of(q, '/') == last_index_of(p@.subrange(0, i as int), '/'),
            decreases i,
        {
            assert(p@.subrange(0, i as int).drop_last() =~= p@.subrange(0, i - 1));
            i = i - 1;
        }
        proof {
            if i > 0 {
                assert(p@.subrange(0, i as int).last() == '/');
            }
            assert(last_index_of(q, '/') == i - 1);
        }
        let ghost comp = q.subrange(i as int, t as int);
        assert(comp =~= p@.subrange(i as int, t as int));
        if t - i == 1 && p.get_char(i) == '.' {
            assert(comp =~= seq!['.']);
            if i > 0 {
                assert(q.subrange(0, i - 1) =~= p@.subrange(0, i - 1));
                end = i - 1;
            } else {
                return None;
            }
        } else if t - i == 2 && p.get_char(i) == '.' && p.get_char(i + 1) == '.' {
            assert(comp =~= seq!['.', '.']);
            return None;
        } else {
            assert(!(comp =~= seq!['.'])) by {
                if comp =~= seq!['.'] {
                    assert(comp[0] == p@[i as int]);
                }
            }
            assert(!(comp =~= seq!['.', '.'])) by {
                if comp =~= seq!['.', '.'] {
                    assert(comp[0] == p@[i as int]);
                    assert(comp[1] == p@[i + 1]);
                }
            }
            return Some((i, t));
        }
    }
}

/// Index of the last `c` in `p[from..to]`, relative to `from`, if any.
fn last_index_in(p: &str, from: usize, to: usize, c: char) -> (r: Option<usize>)
    requires
        from <= to <= p@.len(),
    ensures
        match r {
            Some(i) => i == last_index_of(p@.subrange(from as int, to as int), c),
            None => last_index_of(p@.subrange(from as int, to as int), c) == -1,
        },
{
    let mut i = to;
    while i > from && p.get_char(i - 1) != c
        invariant
            from <= i <= to <= p@.len(),
            last_index_of(p@.subrange(from as int, to as int), c) == last_index_of(
                p@.subrange(from as int, i as int),
                c,
            ),
        decreases i,
    {
        assert(p@.subrange(from as int, i as int).drop_last() =~= p@.subrange(
            from as int,
            i - 1,
        ));
        i = i - 1;
    }
    if i == from {
        assert(p@.subrange(from as int, i as int).len() == 0);
        None
    } else {
        assert(p@.subrange(from as int, i as int).last() == c);
        Some(i - from - 1)
    }
}

/// Length of the stem of the name `p[s..e]`.
fn stem_len_in(p: &str, s: usize, e: usize) -> (r: usize)
    requires
        s <= e <= p@.len(),
    ensures
        r == stem_len(p@.subrange(s as int, e as int)),
        r <= e - s,
{
    proof {
        lemma_last_index_of_bounds(p@.subrange(s as int, e as int), '.');
    }
    match last_index_in(p, s, e, '.') {
        Some(i) if i > 0 => i,
        _ => e - s,
    }
}

/// The file name of `p`, as `Path::file_name` gives it.
pub fn file_name(p: &str) -> (res: Option<String>)
    ensures
        res matches Some(n) ==> file_name_spec(p@) == Some(n@),
        res is None <==> file_name_spec(p@) is None,
{
    match name_range_of(p) {
        Some((s, e)) => {
            proof {
                lemma_name_range_bounds(p@);
            }
            Some(String::from_str(p.substring_char(s, e)))
        },
        None => None,
    }
}

/// The stem of the file name of `p`, as `Path::file_stem` gives it.
pub fn file_stem(p: &str) -> (res: Option<String>)
    ensures
        res matches Some(n) ==> file_stem_spec(p@) == Some(n@),
        res is None <==> file_stem_spec(p@) is None,
{
    match name_range_of(p) {
        Some((s, e)) => {
            proof {
                lemma_name_range_bounds(p@);
            }
            let k = stem_len_in(p, s, e);
            assert(p@.subrange(s as int, e as int).subrange(0, k as int) =~= p@.subrange(
                s as int,
                s + k,
            ));
            Some(String::from_str(p.substring_char(s, s + k)))
        },
        None => None,
    }
}

/// The extension of the file name of `p`, as `Path::extension` gives it.
pub fn extension(p: &str) -> (res: Option<String>)
    ensures
        res matches Some(x) ==> extension_spec(p@) == Some(x@),
        res is None <==> extension_spec(p@) is None,
{
    match name_range_of(p) {
        Some((s, e)) => {
            proof {
                lemma_name_range_bounds(p@);
                lemma_last_index_of_bounds(p@.subrange(s as int, e as int), '.');
            }
            let i = last_index_in(p, s, e, '.');
            if i.is_none() || i == Some(0usize) {
                None
            } else {
                let d = i.unwrap();
                assert(p@.subrange(s as int, e as int).subrange(d + 1, e - s) =~= p@.subrange(
                    s + d + 1,
                    e as int,
                ));
                Some(String::from_str(p.substring_char(s + d + 1, e)))
            }
        },
        None => None,
    }
}

/// `p` with the extension of its file name replaced by `ext`, as
/// `Path::with_extension` does it; `ext` holds no separator, which `std`
/// refuses.
pub fn with_extension(p: &str, ext: &str) -> (res: String)
    requires
        !ext@.contains('/'),
    ensures
        res@ == with_extension_spec(p@, ext@),
{
    match name_range_of(p) {
        Some((s, e)) => {
            proof {
                lemma_name_range_bounds(p@);
            }
            let k = stem_len_in(p, s, e);
            let mut res = String::from_str(p.substring_char(0, s + k));
            if ext.unicode_len() > 0 {
                let dot = ".";
                proof {
                    reveal_strlit(".");
                }
                res.append(dot);
                res.append(ext);
                assert(res@ =~= p@.subrange(0, s + k) + (seq!['.'] + ext@));
            } else {
                assert(res@ =~= p@.subrange(0, s + k) + Seq::<char>::empty());
            }
            res
        },
        None => String::from_str(p),
    }
}

proof fn lemma_last_index_is(s: Seq<char>, c: char, j: int)
    requires
        -1 <= j < s.len(),
        j >= 0 ==> s[j] == c,
        forall|k: int| j < k < s.len() ==> s[k] != c,
    ensures
        last_index_of(s, c) == j,
{
    lemma_last_index_of_bounds(s, c);
    let li = last_index_of(s, c);
    if li > j {
        assert(s[li] == c);
    }
    if li < j {
        assert(s[j] == c);
    }
}

proof fn lemma_name_range_shape(p: Seq<char>)
    ensures
        name_range(p) matches Some((s, e)) ==> {
            &&& 0 <= s < e <= p.len()
            &&& s > 0 ==> p[s - 1] == '/'
            &&& forall|k: int| s <= k < e ==> p[k] != '/'
        },
    decreases p.len(),
{
    let q = trim_separators(p);
    lemma_trim_is_prefix(p);
    lemma_last_index_of_bounds(q, '/');
    if q.len() > 0 {
        let i = last_index_of(q, '/');
        let comp = q.subrange(i + 1, q.len() as int);
        if comp =~= seq!['.'] && i >= 0 {
            lemma_name_range_shape(q.subrange(0, i));
            assert(forall|k: int| 0 <= k < i ==> q.subrange(0, i)[k] == p[k]);
        } else if !(comp =~= seq!['.']) && !(comp =~= seq!['.', '.']) {
            assert(forall|k: int| 0 <= k < q.len() ==> q[k] == p[k]);
        }
    }
}

/// Joining keeps `base` in front and `comp` at the end, with one separator
/// between them where `base` is not empty and does not already end in one;
/// a `comp` that starts at the root replaces `base`.
pub proof fn lemma_join_shape(base: Seq<char>, comp: Seq<char>)
    ensures
        comp.len() > 0 && comp[0] == '/' ==> join_spec(base, comp) == comp,
        !(comp.len() > 0 && comp[0] == '/') ==> {
            let j = join_spec(base, comp);
            let sep: int = if base.len() > 0 && base.last() != '/' {
                1
            } else {
                0
            };
            &&& j.len() == base.len() + sep + comp.len()
            &&& j.subrange(0, base.len() as int) == base
            &&& j.subrange(base.len() + sep, j.len() as int) == comp
            &&& sep == 1 ==> j[base.len() as int] == '/'
        },
{
    let j = join_spec(base, comp);
    if !(comp.len() > 0 && comp[0] == '/') {
        if base.len() > 0 && base.last() != '/' {
            assert(j.subrange(0, base.len() as int) =~= base);
            assert(j.subrange(base.len() as int + 1, j.len() as int) =~= comp);
        } else {
            assert(j.subrange(0, base.len() as int) =~= base);
            assert(j.subrange(base.len() as int, j.len() as int) =~= comp);
        }
    }
}

/// Joining a plain file name onto any path gives a path whose file name is
/// that name.
pub proof fn lemma_join_file_name(base: Seq<char>, name: Seq<char>)
    requires
        name.len() > 0,
        !name.contains('/'),
        name != seq!['.'],
        name != seq!['.', '.'],
    ensures
        file_name_spec(join_spec(base, name)) == Some(name),
{
    let j = join_spec(base, name);
    assert(name[0] != '/') by {
        assert(!name.contains(name[0]) ==> false);
    }
    let pre = if base.len() == 0 || base.last() == '/' {
        base
    } else {
        base + seq!['/']
    };
    assert(j =~= pre + name);
    assert(j.last() == name.last());
    assert(name.last() != '/') by {
        assert(name.contains(name[name.len() - 1]));
    }
    assert(trim_separators(j) == j);
    assert forall|k: int| pre.len() <= k < j.len() implies j[k] != '/' by {
        assert(j[k] == name[k - pre.len()]);
        assert(name.contains(name[k - pre.len()]));
    }
    if pre.len() > 0 {
        assert(j[pre.len() - 1] == '/');
    }
    lemma_last_index_is(j, '/', pre.len() - 1);
    assert(j.subrange(pre.len() as int, j.len() as int) =~= name);
}

/// A file name is its stem, then a dot and the extension when it has one;
/// without an extension the stem is the whole name. A path without a file
/// name has neither stem nor extension.
pub proof fn lemma_stem_and_extension(p: Seq<char>)
    ensures
        file_name_spec(p) matches Some(n) ==> file_stem_spec(p) is Some && (extension_spec(p) matches Some(
            e,
        ) ==> n == file_stem_spec(p).unwrap() + seq!['.'] + e) && (extension_spec(p) is None
            ==> file_stem_spec(p) == Some(n)),
        file_name_spec(p) is None ==> file_stem_spec(p) is None && extension_spec(p) is None,
{
    if file_name_spec(p) is Some {
        let n = file_name_spec(p).unwrap();
        lemma_last_index_of_bounds(n, '.');
        let i = last_index_of(n, '.');
        if i > 0 {
            assert(n =~= n.subrange(0, i) + seq!['.'] + n.subrange(i + 1, n.len() as int));
        } else {
            assert(n.subrange(0, n.len() as int) =~= n);
        }
    }
}

/// Giving a path that has a file name a non-empty extension `ext` (with no
/// dot or separator in it) makes `ext` its extension and keeps its stem.
pub proof fn lemma_with_extension_sets(p: Seq<char>, ext: Seq<char>)
    requires
        file_name_spec(p) is Some,
        ext.len() > 0,
        !ext.contains('/'),
        !ext.contains('.'),
    ensures
        extension_spec(with_extension_spec(p, ext)) == Some(ext),
        file_stem_spec(with_extension_spec(p, ext)) == file_stem_spec(p),
{
    lemma_name_range_shape(p);
    let (s, e) = name_range(p).unwrap();
    let n = p.subrange(s, e);
    let st = stem_len(n);
    lemma_last_index_of_bounds(n, '.');
    assert(0 < st <= n.len());
    let w = with_extension_spec(p, ext);
    assert(w =~= p.subrange(0, s + st) + seq!['.'] + ext);
    assert(ext.contains(ext[ext.len() - 1]));
    assert(w.last() == ext.last());
    assert(trim_separators(w) == w);
    assert forall|k: int| s <= k < w.len() implies w[k] != '/' by {
        if k < s + st {
            assert(w[k] == p[k]);
        } else if k > s + st {
            assert(w[k] == ext[k - s - st - 1]);
            assert(ext.contains(ext[k - s - st - 1]));
        }
    }
    if s > 0 {
        assert(w[s - 1] == p[s - 1]);
    }
    lemma_last_index_is(w, '/', s - 1);
    let comp = w.subrange(s, w.len() as int);
    assert(comp.len() >= 3);
    assert(!(comp =~= seq!['.']));
    assert(!(comp =~= seq!['.', '.']));
    assert(name_range(w) == Some((s, w.len() as int)));
    assert(file_name_spec(w) == Some(comp));
    assert forall|k: int| st < k < comp.len() implies comp[k] != '.' by {
        assert(comp[k] == ext[k - st - 1]);
        assert(ext.contains(ext[k - st - 1]));
    }
    assert(comp[st] == '.');
    lemma_last_index_is(comp, '.', st);
    assert(comp.subrange(st + 1, comp.len() as int) =~= ext);
    assert(comp.subrange(0, st) =~= n.subrange(0, st));
}

/// Index of the first occurrence of `c` in `s`, or -1.
pub open spec fn first_index_of(s: Seq<char>, c: char) -> int
    decreases s.len(),
{
    if s.len() == 0 {
        -1
    } else if s[0] == c {
        0
    } else {
        let r = first_index_of(s.drop_first(), c);
        if r < 0 {
            -1
        } else {
            r + 1
        }
    }
}

pub proof fn lemma_first_index_of(s: Seq<char>, c: char)
    ensures
        -1 <= first_index_of(s, c) < s.len(),
        first_index_of(s, c) >= 0 ==> s[first_index_of(s, c)] == c,
        forall|k: int|
            0 <= k < s.len() && (first_index_of(s, c) < 0 || k < first_index_of(s, c)) ==> s[k]
                != c,
    decreases s.len(),
{
    if s.len() > 0 && s[0] != c {
        lemma_first_index_of(s.drop_first(), c);
        assert forall|k: int|
            0 <= k < s.len() && (first_index_of(s, c) < 0 || k < first_index_of(s, c)) implies s[k]
            != c by {
            if k > 0 {
                assert(s[k] == s.drop_first()[k - 1]);
            }
        }
    }
}

/// The first `c` of `s` is at `j` when none comes before `j` and `s[j]` is
/// one, or nowhere when there is none up to the end.
proof fn lemma_first_index_at(s: Seq<char>, c: char, j: int)
    requires
        0 <= j <= s.len(),
        forall|k: int| 0 <= k < j ==> s[k] != c,
        j < s.len() ==> s[j] == c,
    ensures
        first_index_of(s, c) == if j == s.len() {
            -1
        } else {
            j
        },
    decreases s.len(),
{
    if s.len() > 0 && j > 0 {
        assert(s[0] != c);
        assert forall|k: int| 0 <= k < j - 1 implies s.drop_first()[k] != c by {
            assert(s.drop_first()[k] == s[k + 1]);
        }
        lemma_first_index_at(s.drop_first(), c, j - 1);
    }
}

/// The parts of `p` between separators, empty ones included.
pub open spec fn segments(p: Seq<char>) -> Seq<Seq<char>>
    decreases p.len(),
{
    let i = first_index_of(p, '/');
    if i < 0 {
        seq![p]
    } else {
        proof {
            lemma_first_index_of(p, '/');
        }
        seq![p.subrange(0, i)] + segments(p.subrange(i + 1, p.len() as int))
    }
}

/// Whether a part names a component: it is not empty, and it is not `.`
/// unless it is the first part of the path.
pub open spec fn names_component(seg: Seq<char>, first: bool) -> bool {
    seg.len() > 0 && (seg != seq!['.'] || first)
}

/// The parts that name components, in order.
pub open spec fn kept_parts(segs: Seq<Seq<char>>, first: bool) -> Seq<Seq<char>>
    decreases segs.len(),
{
    if segs.len() == 0 {
        Seq::empty()
    } else {
        (if names_component(segs[0], first) {
            seq![segs[0]]
        } else {
            Seq::empty()
        }) + kept_parts(segs.drop_first(), false)
    }
}

/// The path starts at the root.
pub open spec fn is_rooted(p: Seq<char>) -> bool {
    p.len() > 0 && p[0] == '/'
}

/// The components of `p` after its root, if any: the parts between
/// separators, without empty parts and without `.` parts other than a
/// leading one.
pub open spec fn normal_components(p: Seq<char>) -> Seq<Seq<char>> {
    kept_parts(segments(p), true)
}

/// The components of `p` as `Path::components` gives them: the root, written
/// `/`, when there is one, then the other components.
pub open spec fn components(p: Seq<char>) -> Seq<Seq<char>> {
    if is_rooted(p) {
        seq![seq!['/']] + normal_components(p)
    } else {
        normal_components(p)
    }
}

/// The parts joined by single separators.
pub open spec fn join_parts(cs: Seq<Seq<char>>) -> Seq<char>
    decreases cs.len(),
{
    if cs.len() == 0 {
        Seq::empty()
    } else if cs.len() == 1 {
        cs[0]
    } else {
        cs[0] + seq!['/'] + join_parts(cs.drop_first())
    }
}

/// The text that stands for the path `p` when paths are compared: its root,
/// if any, then its components joined by single separators. Two paths have
/// the same key exactly when they have the same components
/// (`lemma_path_key_same`).
pub open spec fn path_key(p: Seq<char>) -> Seq<char> {
    (if is_rooted(p) {
        seq!['/']
    } else {
        Seq::empty()
    }) + join_parts(normal_components(p))
}

/// A part that may stand in a path key: not empty, no separator.
pub open spec fn plain_part(c: Seq<char>) -> bool {
    c.len() > 0 && forall|k: int| 0 <= k < c.len() ==> #[trigger] c[k] != '/'
}

proof fn lemma_segments_plain(p: Seq<char>)
    ensures
        forall|i: int, k: int|
            0 <= i < segments(p).len() && 0 <= k < segments(p)[i].len() ==> #[trigger] segments(
                p,
            )[i][k] != '/',
    decreases p.len(),
{
    lemma_first_index_of(p, '/');
    let i = first_index_of(p, '/');
    if i >= 0 {
        let rest = p.subrange(i + 1, p.len() as int);
        lemma_segments_plain(rest);
        assert forall|a: int, k: int|
            0 <= a < segments(p).len() && 0 <= k < segments(p)[a].len() implies #[trigger] segments(
            p,
        )[a][k] != '/' by {
            if a > 0 {
                assert(segments(p)[a] == segments(rest)[a - 1]);
            } else {
                assert(segments(p)[0] == p.subrange(0, i));
                assert(p.subrange(0, i)[k] == p[k]);
            }
        }
    }
}

proof fn lemma_kept_plain(segs: Seq<Seq<char>>, first: bool)
    requires
        forall|i: int, k: int|
            0 <= i < segs.len() && 0 <= k < segs[i].len() ==> #[trigger] segs[i][k] != '/',
    ensures
        forall|i: int| 0 <= i < kept_parts(segs, first).len() ==> plain_part(
            #[trigger] kept_parts(segs, first)[i],
        ),
    decreases segs.len(),
{
    if segs.len() > 0 {
        let rest = segs.drop_first();
        assert forall|i: int, k: int| 0 <= i < rest.len() && 0 <= k < rest[i].len() implies #[trigger] rest[i][k]
            != '/' by {
            assert(rest[i] == segs[i + 1]);
        }
        lemma_kept_plain(rest, false);
        let head = if names_component(segs[0], first) {
            seq![segs[0]]
        } else {
            Seq::<Seq<char>>::empty()
        };
        assert forall|i: int| 0 <= i < kept_parts(segs, first).len() implies plain_part(
            #[trigger] kept_parts(segs, first)[i],
        ) by {
            if i < head.len() {
                assert(kept_parts(segs, first)[i] == segs[0]);
                assert forall|k: int| 0 <= k < segs[0].len() implies #[trigger] segs[0][k]
                    != '/' by {}
            } else {
                assert(kept_parts(segs, first)[i] == kept_parts(rest, false)[i - head.len()]);
            }
        }
    }
}

/// Every component of a path other than its root is a plain part.
pub proof fn lemma_normal_components_plain(p: Seq<char>)
    ensures
        forall|i: int| 0 <= i < normal_components(p).len() ==> plain_part(
            #[trigger] normal_components(p)[i],
        ),
{
    lemma_segments_plain(p);
    lemma_kept_plain(segments(p), true);
}

proof fn lemma_join_first(cs: Seq<Seq<char>>)
    requires
        cs.len() > 0,
        forall|i: int| 0 <= i < cs.len() ==> plain_part(#[trigger] cs[i]),
    ensures
        join_parts(cs).len() >= cs[0].len(),
        join_parts(cs).subrange(0, cs[0].len() as int) == cs[0],
        first_index_of(join_parts(cs), '/') == if cs.len() == 1 {
            -1
        } else {
            cs[0].len() as int
        },
        cs.len() > 1 ==> join_parts(cs).subrange(
            cs[0].len() + 1int,
            join_parts(cs).len() as int,
        ) == join_parts(cs.drop_first()),
{
    let j = join_parts(cs);
    assert(plain_part(cs[0]));
    if cs.len() == 1 {
        assert(j.subrange(0, cs[0].len() as int) =~= cs[0]);
        lemma_first_index_at(j, '/', j.len() as int);
    } else {
        let rest = join_parts(cs.drop_first());
        assert(j == cs[0] + seq!['/'] + rest);
        assert(j.subrange(0, cs[0].len() as int) =~= cs[0]);
        assert(j.subrange(cs[0].len() + 1int, j.len() as int) =~= rest);
        assert forall|k: int| 0 <= k < cs[0].len() implies j[k] != '/' by {
            assert(j[k] == cs[0][k]);
        }
        lemma_first_index_at(j, '/', cs[0].len() as int);
    }
}

proof fn lemma_join_empty(cs: Seq<Seq<char>>)
    requires
        forall|i: int| 0 <= i < cs.len() ==> plain_part(#[trigger] cs[i]),
    ensures
        join_parts(cs).len() == 0 <==> cs.len() == 0,
        cs.len() > 0 ==> join_parts(cs)[0] == cs[0][0],
{
    if cs.len() > 0 {
        lemma_join_first(cs);
        assert(plain_part(cs[0]));
        assert(join_parts(cs).subrange(0, cs[0].len() as int)[0] == join_parts(cs)[0]);
    }
}

/// Joining plain parts by separators loses nothing.
proof fn lemma_join_injective(cs: Seq<Seq<char>>, ds: Seq<Seq<char>>)
    requires
        forall|i: int| 0 <= i < cs.len() ==> plain_part(#[trigger] cs[i]),
        forall|i: int| 0 <= i < ds.len() ==> plain_part(#[trigger] ds[i]),
        join_parts(cs) == join_parts(ds),
    ensures
        cs == ds,
    decreases cs.len(),
{
    lemma_join_empty(cs);
    lemma_join_empty(ds);
    if cs.len() > 0 && ds.len() > 0 {
        lemma_join_first(cs);
        lemma_join_first(ds);
        let j = join_parts(cs);
        assert(cs[0] == ds[0]) by {
            if cs.len() == 1 {
                assert(ds.len() == 1);
                assert(j.subrange(0, j.len() as int) =~= j);
            } else {
                assert(ds.len() > 1);
            }
        }
        if cs.len() > 1 {
            assert forall|i: int| 0 <= i < cs.drop_first().len() implies plain_part(
                #[trigger] cs.drop_first()[i],
            ) by {
                assert(cs.drop_first()[i] == cs[i + 1]);
            }
            assert forall|i: int| 0 <= i < ds.drop_first().len() implies plain_part(
                #[trigger] ds.drop_first()[i],
            ) by {
                assert(ds.drop_first()[i] == ds[i + 1]);
            }
            lemma_join_injective(cs.drop_first(), ds.drop_first());
            assert(cs =~= seq![cs[0]] + cs.drop_first());
            assert(ds =~= seq![ds[0]] + ds.drop_first());
        } else {
            assert(cs =~= ds);
        }
    } else {
        assert(cs =~= ds);
    }
}

proof fn lemma_kept_later_filter(segs: Seq<Seq<char>>)
    ensures
        kept_parts(segs, false) == segs.filter(|c: Seq<char>| c.len() > 0 && c != seq!['.']),
    decreases segs.len(),
{
    let pred = |c: Seq<char>| c.len() > 0 && c != seq!['.'];
    reveal(Seq::filter);
    if segs.len() > 0 {
        let rest = segs.drop_first();
        lemma_kept_later_filter(rest);
        assert(segs =~= seq![segs[0]] + rest);
        Seq::filter_distributes_over_add(seq![segs[0]], rest, pred);
        assert(seq![segs[0]].drop_last() =~= Seq::<Seq<char>>::empty());
        assert(Seq::<Seq<char>>::empty().filter(pred) =~= Seq::<Seq<char>>::empty());
        if pred(segs[0]) {
            assert(seq![segs[0]].filter(pred) =~= seq![segs[0]]);
        } else {
            assert(seq![segs[0]].filter(pred) =~= Seq::<Seq<char>>::empty());
        }
    } else {
        assert(segs.filter(pred) =~= Seq::<Seq<char>>::empty());
    }
}

/// A path splits at its separators into parts that hold none and that,
/// joined again by single separators, give the path back. Its components
/// after the root are those parts that are neither empty nor `.`, in order,
/// except that a leading `.` part is kept; so `.` is a component only as
/// the first of a path that does not start at the root.
pub proof fn lemma_components_of_parts(p: Seq<char>)
    ensures
        segments(p).len() > 0,
        join_parts(segments(p)) == p,
        forall|i: int, k: int|
            0 <= i < segments(p).len() && 0 <= k < segments(p)[i].len() ==> #[trigger] segments(
                p,
            )[i][k] != '/',
        normal_components(p) == (if segments(p)[0].len() > 0 {
            seq![segments(p)[0]]
        } else {
            Seq::empty()
        }) + segments(p).drop_first().filter(|c: Seq<char>| c.len() > 0 && c != seq!['.']),
        forall|i: int|
            0 <= i < normal_components(p).len() && #[trigger] normal_components(p)[i] == seq!['.']
                ==> i == 0 && !is_rooted(p),
    decreases p.len(),
{
    lemma_segments_plain(p);
    lemma_first_index_of(p, '/');
    let i = first_index_of(p, '/');
    let segs = segments(p);
    if i >= 0 {
        let rest = p.subrange(i + 1, p.len() as int);
        lemma_components_of_parts(rest);
        assert(segs == seq![p.subrange(0, i)] + segments(rest));
        assert(segs.drop_first() =~= segments(rest));
        assert(segs.len() >= 2);
        assert(join_parts(segs) == segs[0] + seq!['/'] + join_parts(segs.drop_first()));
        assert(p =~= p.subrange(0, i) + seq!['/'] + rest);
    }
    lemma_kept_later_filter(segs.drop_first());
    let pred = |c: Seq<char>| c.len() > 0 && c != seq!['.'];
    let later = segs.drop_first().filter(pred);
    let head: Seq<Seq<char>> = if segs[0].len() > 0 {
        seq![segs[0]]
    } else {
        Seq::empty()
    };
    assert(normal_components(p) == head + later);
    assert forall|j: int|
        0 <= j < normal_components(p).len() && #[trigger] normal_components(p)[j] == seq!['.'] implies j
        == 0 && !is_rooted(p) by {
        if j >= head.len() {
            segs.drop_first().lemma_filter_pred(pred, j - head.len());
            assert(later[j - head.len()] == normal_components(p)[j]);
        } else {
            assert(segs[0] == seq!['.']);
            if is_rooted(p) {
                assert(i == 0) by {
                    lemma_first_index_at(p, '/', 0);
                }
                assert(segs[0] =~= Seq::<char>::empty());
            }
        }
    }
}

/// Two paths have the same key exactly when they have the same components,
/// which is when `std` takes them for the same path.
pub proof fn lemma_path_key_same(a: Seq<char>, b: Seq<char>)
    ensures
        path_key(a) == path_key(b) <==> components(a) == components(b),
{
    lemma_normal_components_plain(a);
    lemma_normal_components_plain(b);
    let na = normal_components(a);
    let nb = normal_components(b);
    lemma_join_empty(na);
    lemma_join_empty(nb);
    if na.len() > 0 {
        assert(plain_part(na[0]));
    }
    if nb.len() > 0 {
        assert(plain_part(nb[0]));
    }
    if path_key(a) == path_key(b) {
        if is_rooted(a) != is_rooted(b) {
            if is_rooted(a) {
                assert(path_key(a)[0] == '/');
                assert(path_key(b) == join_parts(nb));
            } else {
                assert(path_key(b)[0] == '/');
                assert(path_key(a) == join_parts(na));
            }
        }
        if is_rooted(a) {
            assert(join_parts(na) =~= path_key(a).subrange(1, path_key(a).len() as int));
            assert(join_parts(nb) =~= path_key(b).subrange(1, path_key(b).len() as int));
        } else {
            assert(join_parts(na) =~= path_key(a));
            assert(join_parts(nb) =~= path_key(b));
        }
        lemma_join_injective(na, nb);
    }
    if components(a) == components(b) {
        if is_rooted(a) != is_rooted(b) {
            if is_rooted(a) {
                assert(components(a)[0] == seq!['/']);
                assert(components(b)[0] == nb[0]);
                assert(nb[0][0] != '/');
            } else {
                assert(components(b)[0] == seq!['/']);
                assert(components(a)[0] == na[0]);
                assert(na[0][0] != '/');
            }
        }
        if is_rooted(a) {
            assert(na =~= components(a).drop_first());
            assert(nb =~= components(b).drop_first());
        }
    }
}

proof fn lemma_join_push(cs: Seq<Seq<char>>, c: Seq<char>)
    ensures
        join_parts(cs.push(c)) == if cs.len() == 0 {
            c
        } else {
            join_parts(cs) + seq!['/'] + c
        },
    decreases cs.len(),
{
    if cs.len() == 1 {
        assert(cs.push(c).drop_first() =~= seq![c]);
        assert(cs.push(c)[0] == cs[0]);
        assert(join_parts(seq![c]) == c);
    } else if cs.len() > 1 {
        lemma_join_push(cs.drop_first(), c);
        assert(cs.push(c).drop_first() =~= cs.drop_first().push(c));
        assert(cs.push(c)[0] == cs[0]);
        assert(cs[0] + seq!['/'] + (join_parts(cs.drop_first()) + seq!['/'] + c) =~= (cs[0]
            + seq!['/'] + join_parts(cs.drop_first())) + seq!['/'] + c);
    }
}

/// The components of `p` after its root, as `Path::components` gives them.
pub fn normal_components_of(p: &str) -> (res: Vec<String>)
    ensures
        res@.map_values(|c: String| c@) == normal_components(p@),
{
    let n = p.unicode_len();
    let mut res: Vec<String> = Vec::new();
    let mut start: usize = 0;
    let mut first = true;
    assert(p@.subrange(0, n as int) =~= p@);
    loop
        invariant
            n == p@.len(),
            start <= n,
            normal_components(p@) == res@.map_values(|c: String| c@) + kept_parts(
                segments(p@.subrange(start as int, n as int)),
                first,
            ),
        decreases n - start,
    {
        let ghost rest = p@.subrange(start as int, n as int);
        let mut j = start;
        while j < n && p.get_char(j) != '/'
            invariant
                start <= j <= n == p@.len(),
                forall|k: int| start <= k < j ==> p@[k] != '/',
            decreases n - j,
        {
            j = j + 1;
        }
        proof {
            lemma_first_index_at(rest, '/', j - start);
            if j < n {
                assert(rest.subrange(j - start + 1, rest.len() as int) =~= p@.subrange(
                    j + 1,
                    n as int,
                ));
            }
            assert(rest.subrange(0, j - start) =~= p@.subrange(start as int, j as int));
        }
        let ghost seg = p@.subrange(start as int, j as int);
        let ghost before = res@;
        let keep = j > start && !(j - start == 1 && p.get_char(start) == '.' && !first);
        proof {
            if j - start == 1 {
                assert(seg =~= seq![p@[start as int]]);
            }
            if seg =~= seq!['.'] {
                assert(p@[start as int] == seg[0]);
            }
            assert(keep == names_component(seg, first));
        }
        if keep {
            res.push(String::from_str(p.substring_char(start, j)));
            assert(res@.map_values(|c: String| c@) =~= before.map_values(|c: String| c@) + seq![
                seg,
            ]);
        }
        if j == n {
            assert(segments(rest) == seq![seg]);
            assert(seq![seg].drop_first() =~= Seq::<Seq<char>>::empty());
            assert(kept_parts(seq![seg].drop_first(), false) =~= Seq::<Seq<char>>::empty());
            assert(seq![seg][0] == seg);
            assert(kept_parts(seq![seg], first) =~= if keep {
                seq![seg]
            } else {
                Seq::<Seq<char>>::empty()
            });
            assert(normal_components(p@) =~= res@.map_values(|c: String| c@));
            return res;
        }
        assert((seq![seg] + segments(p@.subrange(j + 1, n as int))).drop_first() =~= segments(
            p@.subrange(j + 1, n as int),
        ));
        start = j + 1;
        first = false;
    }
}

/// The key of `p` when paths are compared.
pub fn path_key_of(p: &str) -> (res: String)
    ensures
        res@ == path_key(p@),
{
    let comps = normal_components_of(p);
    let ghost cs = comps@.map_values(|c: String| c@);
    let rooted = p.unicode_len() > 0 && p.get_char(0) == '/';
    let mut res = String::new();
    if rooted {
        let sep = "/";
        proof {
            reveal_strlit("/");
        }
        res.append(sep);
    }
    let ghost prefix = res@;
    assert(prefix == if is_rooted(p@) {
        seq!['/']
    } else {
        Seq::<char>::empty()
    });
    assert(cs.subrange(0, 0) =~= Seq::<Seq<char>>::empty());
    assert(res@ =~= prefix + join_parts(cs.subrange(0, 0)));
    for k in 0..comps.len()
        invariant
            cs == comps@.map_values(|c: String| c@),
            res@ == prefix + join_parts(cs.subrange(0, k as int)),
    {
        proof {
            lemma_join_push(cs.subrange(0, k as int), cs[k as int]);
            assert(cs.subrange(0, k + 1) =~= cs.subrange(0, k as int).push(cs[k as int]));
        }
        if k > 0 {
            let sep = "/";
            proof {
                reveal_strlit("/");
            }
            res.append(sep);
        }
        res.append(comps[k].as_str());
        assert(res@ =~= prefix + join_parts(cs.subrange(0, k + 1)));
    }
    assert(cs.subrange(0, cs.len() as int) =~= cs);
    res
}

} // verus!
