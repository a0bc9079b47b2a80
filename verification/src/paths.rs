//! Where the output of a file goes.
//!
//! A path is a string whose components are separated by `/`. Slashes at its
//! end do not count, nor do components `.` at its end. The file name of a path
//! is its last component, the parent is what stands before it, and the stem
//! of a file name is what stands before its last `.`, unless that dot is its
//! first character.
//!
//! Whether one path lies under another is decided component by component;
//! empty components and components `.` do not count.

use vstd::prelude::*;
use crate::chars::{from_chars, to_chars};

verus! {

/// `s` without the slashes and the components `.` at its end: `a/b/`,
/// `a/b/.` and `a/b/./` all give `a/b`. A `.` that is the whole path stays.
pub open spec fn trimmed(s: Seq<char>) -> Seq<char>
    decreases s.len(),
{
    if s.len() > 0 && s.last() == '/' {
        trimmed(s.drop_last())
    } else if s.len() > 1 && s.last() == '.' && s[s.len() - 2] == '/' {
        trimmed(s.drop_last())
    } else {
        s
    }
}

/// The index after the last `/` of `s`, or 0 where it has none.
pub open spec fn name_start(s: Seq<char>) -> nat
    decreases s.len(),
{
    if s.len() == 0 {
        0
    } else if s.last() == '/' {
        s.len()
    } else {
        name_start(s.drop_last())
    }
}

/// The path without its last component. A path of one component has the
/// empty parent, a path directly under the root has the root, and the root
/// and the empty path have none.
pub open spec fn parent_of(p: Seq<char>) -> Option<Seq<char>> {
    let t = trimmed(p);
    let before = trimmed(t.take(name_start(t) as int));
    if t.len() == 0 {
        None
    } else if before.len() == 0 && t[0] == '/' {
        Some(seq!['/'])
    } else {
        Some(before)
    }
}

/// The directory that a sibling of the path goes to: its parent, or `.`
/// where it has none.
pub open spec fn parent_dir(p: Seq<char>) -> Seq<char> {
    match parent_of(p) {
        Some(d) => d,
        None => seq!['.'],
    }
}

/// The last component of the path, as it is written: a name, `..`, a `.`
/// that is the whole path, or nothing for the root and the empty path. Only
/// the first of these names an entry (see `names_entry`).
pub open spec fn file_name(p: Seq<char>) -> Seq<char> {
    trimmed(p).skip(name_start(trimmed(p)) as int)
}

/// The index of the last `.` of `n`, or -1 where it has none.
pub open spec fn last_dot(n: Seq<char>) -> int
    decreases n.len(),
{
    if n.len() == 0 {
        -1
    } else if n.last() == '.' {
        n.len() - 1
    } else {
        last_dot(n.drop_last())
    }
}

/// The file name without its extension.
pub open spec fn stem_of(n: Seq<char>) -> Seq<char> {
    if last_dot(n) <= 0 {
        n
    } else {
        n.take(last_dot(n))
    }
}

/// The extension of a file name: what follows its last `.`, where that dot is
/// not the first character. The names `.` and `..` have none.
pub open spec fn extension_of(n: Seq<char>) -> Option<Seq<char>> {
    if !names_entry(n) || last_dot(n) <= 0 {
        None
    } else {
        Some(n.skip(last_dot(n) + 1))
    }
}

/// Whether `n` names a file or directory: it is not empty, not `.` and not
/// `..`.
pub open spec fn names_entry(n: Seq<char>) -> bool {
    n.len() > 0 && n != seq!['.'] && n != seq!['.', '.']
}

/// The stem that output names are built on: that of the path's file name, or
/// `output` where the path names no entry.
pub open spec fn input_stem(p: Seq<char>) -> Seq<char> {
    if names_entry(file_name(p)) {
        stem_of(file_name(p))
    } else {
        "output"@
    }
}

/// `rest` put below `dir`. An absolute `rest` stands alone.
pub open spec fn joined(dir: Seq<char>, rest: Seq<char>) -> Seq<char> {
    if rest.len() > 0 && rest[0] == '/' {
        rest
    } else if dir.len() == 0 || dir.last() == '/' {
        dir + rest
    } else {
        dir + seq!['/'] + rest
    }
}

/// The name of the output file: the stem, `_processed.`, the extension.
pub open spec fn output_name(p: Seq<char>, extension: Seq<char>) -> Seq<char> {
    input_stem(p) + "_processed."@ + extension
}

/// The path of the output file: under the output directory where one is
/// given, else beside the input.
pub open spec fn output_path(p: Seq<char>, output_dir: Option<Seq<char>>, extension: Seq<char>) -> Seq<char> {
    match output_dir {
        Some(dir) => joined(dir, output_name(p, extension)),
        None => joined(parent_dir(p), output_name(p, extension)),
    }
}

/// The output root of a directory run where none is given: the directory's
/// sibling with `_processed` after its name.
pub open spec fn default_root(input_dir: Seq<char>) -> Seq<char> {
    joined(parent_dir(input_dir), default_root_name(input_dir))
}

/// The name of that sibling: the directory's name, or `output` where it has
/// none, and `_processed`.
pub open spec fn default_root_name(input_dir: Seq<char>) -> Seq<char> {
    (if names_entry(file_name(input_dir)) {
        file_name(input_dir)
    } else {
        "output"@
    }) + "_processed"@
}

/// Whether the path starts at the root.
pub open spec fn starts_at_root(s: Seq<char>) -> bool {
    s.len() > 0 && s[0] == '/'
}

/// Whether the first component of the path is `.`.
pub open spec fn starts_here(s: Seq<char>) -> bool {
    s.len() > 0 && s[0] == '.' && (s.len() == 1 || s[1] == '/')
}

/// The path after the root or the `.` that it starts with.
pub open spec fn body(s: Seq<char>) -> Seq<char> {
    if starts_at_root(s) || starts_here(s) {
        s.skip(1)
    } else {
        s
    }
}

/// The length of the first component of `s`: the number of characters
/// before its first `/`.
pub open spec fn first_len(s: Seq<char>) -> nat
    decreases s.len(),
{
    if s.len() == 0 || s[0] == '/' {
        0
    } else {
        1 + first_len(s.skip(1))
    }
}

/// What is left of `p` once the components of `b` are taken from its start,
/// one by one; `None` where a component of `b` is not the next one of `p`.
/// Empty components and components `.` count on neither side.
pub open spec fn after_base(p: Seq<char>, b: Seq<char>) -> Option<Seq<char>>
    decreases b.len(),
{
    if b.len() == 0 {
        Some(p)
    } else if b[0] == '/' || (b[0] == '.' && (b.len() == 1 || b[1] == '/')) {
        after_base(p, b.skip(1))
    } else {
        let q = without_leading(p);
        let n = first_len(b) as int;
        if 0 < n <= b.len() && n <= q.len() && q.take(n) == b.take(n) && (q.len() == n || q[n]
            == '/') {
            after_base(q.skip(n), b.skip(n))
        } else {
            None
        }
    }
}

/// Whether `path` is `base` or lies below it, component by component: both
/// start alike, at the root, with `.` or with a name, and the components of
/// `base` are the first components of `path`. Every path lies under the
/// empty base.
pub open spec fn lies_under(path: Seq<char>, base: Seq<char>) -> bool {
    base.len() == 0 || (starts_at_root(path) == starts_at_root(base) && starts_here(path)
        == starts_here(base) && after_base(body(path), body(base)) is Some)
}

/// `s` without the slashes and the components `.` at its start.
pub open spec fn without_leading(s: Seq<char>) -> Seq<char>
    decreases s.len(),
{
    if s.len() > 0 && s[0] == '/' {
        without_leading(s.skip(1))
    } else if s.len() > 1 && s[0] == '.' && s[1] == '/' {
        without_leading(s.skip(1))
    } else if s == seq!['.'] {
        Seq::empty()
    } else {
        s
    }
}

/// `p` without what does not count at its end; of the root, the root stays.
pub open spec fn without_trailing(p: Seq<char>) -> Seq<char> {
    if trimmed(p).len() == 0 && p.len() > 0 && p[0] == '/' {
        seq!['/']
    } else {
        trimmed(p)
    }
}

/// `path` as seen from `base`, where it lies under it: what follows the
/// components of `base` in `path`, without what does not count at its start
/// and at its end.
pub open spec fn relative_to(path: Seq<char>, base: Seq<char>) -> Option<Seq<char>> {
    if !lies_under(path, base) {
        None
    } else if base.len() == 0 {
        Some(without_trailing(path))
    } else {
        Some(trimmed(without_leading(after_base(body(path), body(base))->0)))
    }
}

/// The place under `output_root` that mirrors the place of `path` under
/// `input_root`.
pub open spec fn mirrored(path: Seq<char>, input_root: Seq<char>, output_root: Seq<char>) -> Option<Seq<char>> {
    match relative_to(path, input_root) {
        Some(rel) => Some(joined(output_root, rel)),
        None => None,
    }
}

/// Whether `needle` stands somewhere in `s`.
pub open spec fn has_infix(s: Seq<char>, needle: Seq<char>) -> bool {
    exists|i: int| 0 <= i && i + needle.len() <= s.len() && #[trigger] s.subrange(i, i + needle.len()) == needle
}

/// The view of an optional string.
pub open spec fn opt_view(o: Option<String>) -> Option<Seq<char>> {
    match o {
        Some(s) => Some(s@),
        None => None,
    }
}

fn trimmed_before(v: &Vec<char>, end: usize) -> (n: usize)
    requires
        end <= v@.len(),
    ensures
        n <= end,
        v@.take(n as int) == trimmed(v@.take(end as int)),
{
    let mut n: usize = end;
    while n > 0 && (v[n - 1] == '/' || (n > 1 && v[n - 1] == '.' && v[n - 2] == '/'))
        invariant
            n <= end <= v@.len(),
            trimmed(v@.take(n as int)) == trimmed(v@.take(end as int)),
        decreases n,
    {
        proof {
            assert(v@.take(n as int).drop_last() =~= v@.take(n as int - 1));
        }
        n -= 1;
    }
    n
}

fn trimmed_len(v: &Vec<char>) -> (n: usize)
    ensures
        n <= v@.len(),
        v@.take(n as int) == trimmed(v@),
{
    proof {
        assert(v@.take(v@.len() as int) =~= v@);
    }
    trimmed_before(v, v.len())
}

fn name_start_before(v: &Vec<char>, end: usize) -> (k: usize)
    requires
        end <= v@.len(),
    ensures
        k <= end,
        k == name_start(v@.take(end as int)),
{
    let mut k: usize = end;
    while k > 0 && v[k - 1] != '/'
        invariant
            k <= end <= v@.len(),
            name_start(v@.take(k as int)) == name_start(v@.take(end as int)),
        decreases k,
    {
        proof {
            assert(v@.take(k as int).drop_last() =~= v@.take(k as int - 1));
        }
        k -= 1;
    }
    k
}

fn copy_range(v: &Vec<char>, from: usize, to: usize) -> (r: Vec<char>)
    requires
        from <= to <= v@.len(),
    ensures
        r@ == v@.subrange(from as int, to as int),
{
    let mut r: Vec<char> = Vec::new();
    let mut i: usize = from;
    while i < to
        invariant
            from <= i <= to <= v@.len(),
            r@ == v@.subrange(from as int, i as int),
        decreases to - i,
    {
        r.push(v[i]);
        proof {
            assert(v@.subrange(from as int, i as int).push(v@[i as int]) =~= v@.subrange(from as int, i as int + 1));
        }
        i += 1;
    }
    r
}

fn push_all(out: &mut Vec<char>, v: &Vec<char>)
    ensures
        final(out)@ == old(out)@ + v@,
{
    let ghost start = out@;
    let mut i: usize = 0;
    proof {
        assert(start + v@.take(0) =~= start);
    }
    while i < v.len()
        invariant
            i <= v@.len(),
            out@ == start + v@.take(i as int),
        decreases v.len() - i,
    {
        out.push(v[i]);
        proof {
            assert((start + v@.take(i as int)).push(v@[i as int]) =~= start + v@.take(i as int + 1));
        }
        i += 1;
    }
    proof {
        assert(v@.take(v.len() as int) =~= v@);
    }
}

fn parent_chars(v: &Vec<char>) -> (r: Option<Vec<char>>)
    ensures
        match r {
            Some(d) => parent_of(v@) == Some(d@),
            None => parent_of(v@) is None,
        },
{
    let end = trimmed_len(v);
    if end == 0 {
        return None;
    }
    let start = name_start_before(v, end);
    let cut = trimmed_before(v, start);
    proof {
        assert(v@.take(end as int).take(start as int) =~= v@.take(start as int));
        assert(v@.take(end as int)[0] == v@[0]);
    }
    if cut == 0 && v[0] == '/' {
        let mut r: Vec<char> = Vec::new();
        r.push('/');
        proof {
            assert(r@ =~= seq!['/']);
        }
        Some(r)
    } else {
        proof {
            assert(v@.take(cut as int) =~= v@.subrange(0, cut as int));
        }
        Some(copy_range(v, 0, cut))
    }
}

fn parent_dir_chars(v: &Vec<char>) -> (r: Vec<char>)
    ensures
        r@ == parent_dir(v@),
{
    match parent_chars(v) {
        Some(d) => d,
        None => {
            let mut r: Vec<char> = Vec::new();
            r.push('.');
            proof {
                assert(r@ =~= seq!['.']);
            }
            r
        },
    }
}

fn file_name_chars(v: &Vec<char>) -> (r: Vec<char>)
    ensures
        r@ == file_name(v@),
{
    let end = trimmed_len(v);
    let start = name_start_before(v, end);
    proof {
        assert(v@.take(end as int).skip(start as int) =~= v@.subrange(start as int, end as int));
    }
    copy_range(v, start, end)
}

fn last_dot_index(n: &Vec<char>) -> (r: Option<usize>)
    ensures
        match r {
            Some(d) => d == last_dot(n@),
            None => last_dot(n@) == -1,
        },
{
    let mut k: usize = n.len();
    proof {
        assert(n@.take(k as int) =~= n@);
    }
    while k > 0
        invariant
            k <= n@.len(),
            last_dot(n@.take(k as int)) == last_dot(n@),
        decreases k,
    {
        if n[k - 1] == '.' {
            return Some(k - 1);
        }
        proof {
            assert(n@.take(k as int).drop_last() =~= n@.take(k as int - 1));
        }
        k -= 1;
    }
    None
}

fn stem_chars(n: &Vec<char>) -> (r: Vec<char>)
    ensures
        r@ == stem_of(n@),
{
    match last_dot_index(n) {
        Some(d) => {
            if d == 0 {
                proof {
                    assert(n@.subrange(0, n@.len() as int) =~= n@);
                }
                copy_range(n, 0, n.len())
            } else {
                proof {
                    lemma_last_dot(n@);
                }
                copy_range(n, 0, d)
            }
        },
        None => {
            proof {
                assert(n@.subrange(0, n@.len() as int) =~= n@);
            }
            copy_range(n, 0, n.len())
        },
    }
}

fn names_entry_chars(n: &Vec<char>) -> (r: bool)
    ensures
        r == names_entry(n@),
{
    if n.len() == 0 {
        false
    } else if n.len() == 1 {
        proof {
            assert(n@[0] == '.' ==> n@ =~= seq!['.']);
        }
        n[0] != '.'
    } else if n.len() == 2 {
        proof {
            assert(n@[0] == '.' && n@[1] == '.' ==> n@ =~= seq!['.', '.']);
        }
        !(n[0] == '.' && n[1] == '.')
    } else {
        true
    }
}

fn input_stem_chars(v: &Vec<char>) -> (r: Vec<char>)
    ensures
        r@ == input_stem(v@),
{
    let name = file_name_chars(v);
    if names_entry_chars(&name) {
        stem_chars(&name)
    } else {
        to_chars("output")
    }
}

fn joined_chars(dir: &Vec<char>, rest: &Vec<char>) -> (r: Vec<char>)
    ensures
        r@ == joined(dir@, rest@),
{
    let mut r: Vec<char> = Vec::new();
    if rest.len() > 0 && rest[0] == '/' {
        push_all(&mut r, rest);
        proof {
            assert(Seq::<char>::empty() + rest@ =~= rest@);
        }
    } else {
        push_all(&mut r, dir);
        if !(dir.len() == 0 || dir[dir.len() - 1] == '/') {
            r.push('/');
        }
        push_all(&mut r, rest);
        proof {
            assert(Seq::<char>::empty() + dir@ =~= dir@);
            assert(dir@.push('/') =~= dir@ + seq!['/']);
        }
    }
    r
}

fn output_name_chars(v: &Vec<char>, extension: &str) -> (r: Vec<char>)
    ensures
        r@ == output_name(v@, extension@),
{
    let mut r = input_stem_chars(v);
    let mark = to_chars("_processed.");
    let ext = to_chars(extension);
    push_all(&mut r, &mark);
    push_all(&mut r, &ext);
    r
}

/// The stem of the file that `path` names.
pub fn file_stem(path: &str) -> (r: String)
    ensures
        r@ == input_stem(path@),
{
    let v = to_chars(path);
    let stem = input_stem_chars(&v);
    from_chars(&stem)
}

/// The extension of the file that `path` names, where it has one.
pub fn extension(path: &str) -> (r: Option<String>)
    ensures
        opt_view(r) == extension_of(file_name(path@)),
{
    let v = to_chars(path);
    let name = file_name_chars(&v);
    if !names_entry_chars(&name) {
        return None;
    }
    match last_dot_index(&name) {
        Some(d) => {
            if d == 0 {
                None
            } else {
                let len = name.len();
                proof {
                    lemma_last_dot(name@);
                    assert(d < len);
                    assert(name@.skip(d as int + 1) =~= name@.subrange(d as int + 1, name@.len() as int));
                }
                let from: usize = d + 1;
                let e = copy_range(&name, from, len);
                Some(from_chars(&e))
            }
        },
        None => None,
    }
}

/// `rest` put below `dir`.
pub fn join(dir: &str, rest: &str) -> (r: String)
    ensures
        r@ == joined(dir@, rest@),
{
    let d = to_chars(dir);
    let n = to_chars(rest);
    let j = joined_chars(&d, &n);
    from_chars(&j)
}

/// Where the output of `input_path` goes: `{stem}_processed.{extension}`,
/// under `output_dir` where one is given, else beside the input. The result
/// is never the input path itself, as long as the extension holds no `/`.
pub fn determine_output_path(input_path: &str, output_dir: &Option<String>, extension: &str) -> (r: String)
    ensures
        r@ == output_path(input_path@, opt_view(*output_dir), extension@),
        !extension@.contains('/') ==> r@ != input_path@,
{
    let v = to_chars(input_path);
    let name = output_name_chars(&v, extension);
    proof {
        if !extension@.contains('/') {
            lemma_output_differs(input_path@, opt_view(*output_dir), extension@);
        }
    }
    match output_dir {
        Some(dir) => {
            let d = to_chars(dir.as_str());
            let j = joined_chars(&d, &name);
            from_chars(&j)
        },
        None => {
            let d = parent_dir_chars(&v);
            let j = joined_chars(&d, &name);
            from_chars(&j)
        },
    }
}

/// The parent of `path`: the path without its last component. `None` for
/// the root and for the empty path.
pub fn parent(path: &str) -> (r: Option<String>)
    ensures
        opt_view(r) == parent_of(path@),
{
    let v = to_chars(path);
    match parent_chars(&v) {
        Some(d) => Some(from_chars(&d)),
        None => None,
    }
}

/// The name of the output file of `path`: `{stem}_processed.{extension}`.
pub fn output_file_name(path: &str, extension: &str) -> (r: String)
    ensures
        r@ == output_name(path@, extension@),
{
    let v = to_chars(path);
    let name = output_name_chars(&v, extension);
    from_chars(&name)
}

fn skip_leading(v: &Vec<char>, from: usize) -> (k: usize)
    requires
        from <= v@.len(),
    ensures
        from <= k <= v@.len(),
        v@.skip(k as int) == without_leading(v@.skip(from as int)),
{
    let len = v.len();
    let mut k: usize = from;
    while k < len && (v[k] == '/' || (v[k] == '.' && len - k > 1 && v[k + 1] == '/'))
        invariant
            from <= k <= len,
            len == v@.len(),
            without_leading(v@.skip(k as int)) == without_leading(v@.skip(from as int)),
        decreases len - k,
    {
        proof {
            assert(v@.skip(k as int).skip(1) =~= v@.skip(k as int + 1));
        }
        k += 1;
    }
    if k < len && len - k == 1 && v[k] == '.' {
        proof {
            assert(v@.skip(k as int) =~= seq!['.']);
            assert(v@.skip(len as int) =~= Seq::<char>::empty());
        }
        len
    } else {
        proof {
            let rest = v@.skip(k as int);
            if rest == seq!['.'] {
                assert(rest.len() == 1);
                assert(rest[0] == '.');
            }
            assert(without_leading(rest) == rest);
        }
        k
    }
}

fn component_end(v: &Vec<char>, from: usize) -> (e: usize)
    requires
        from <= v@.len(),
    ensures
        from <= e <= v@.len(),
        e - from == first_len(v@.skip(from as int)),
{
    let len = v.len();
    let mut e: usize = from;
    while e < len && v[e] != '/'
        invariant
            from <= e <= len,
            len == v@.len(),
            first_len(v@.skip(from as int)) == (e - from) + first_len(v@.skip(e as int)),
        decreases len - e,
    {
        proof {
            assert(v@.skip(e as int).skip(1) =~= v@.skip(e as int + 1));
        }
        e += 1;
    }
    e
}

fn same_range(a: &Vec<char>, i: usize, b: &Vec<char>, j: usize, n: usize) -> (r: bool)
    requires
        i + n <= a@.len(),
        j + n <= b@.len(),
    ensures
        r == (a@.subrange(i as int, i + n) == b@.subrange(j as int, j + n)),
{
    let alen = a.len();
    let blen = b.len();
    let mut k: usize = 0;
    while k < n
        invariant
            k <= n,
            alen == a@.len(),
            blen == b@.len(),
            i + n <= a@.len(),
            j + n <= b@.len(),
            a@.subrange(i as int, i + k) == b@.subrange(j as int, j + k),
        decreases n - k,
    {
        if a[i + k] != b[j + k] {
            proof {
                assert(a@.subrange(i as int, i + n)[k as int] != b@.subrange(j as int, j + n)[k as int]);
            }
            return false;
        }
        proof {
            assert(a@.subrange(i as int, i + k + 1) =~= a@.subrange(i as int, i + k).push(a@[i + k]));
            assert(b@.subrange(j as int, j + k + 1) =~= b@.subrange(j as int, j + k).push(b@[j + k]));
        }
        k += 1;
    }
    true
}

fn remainder_start(path: &Vec<char>, base: &Vec<char>, from: usize, base_from: usize) -> (r: Option<usize>)
    requires
        from <= path@.len(),
        base_from <= base@.len(),
    ensures
        match r {
            Some(k) => k <= path@.len() && after_base(
                path@.skip(from as int),
                base@.skip(base_from as int),
            ) == Some(path@.skip(k as int)),
            None => after_base(path@.skip(from as int), base@.skip(base_from as int)) is None,
        },
{
    let plen = path.len();
    let blen = base.len();
    let mut i: usize = from;
    let mut j: usize = base_from;
    while j < blen
        invariant
            i <= plen,
            j <= blen,
            plen == path@.len(),
            blen == base@.len(),
            after_base(path@.skip(i as int), base@.skip(j as int)) == after_base(
                path@.skip(from as int),
                base@.skip(base_from as int),
            ),
        decreases blen - j,
    {
        let ghost p = path@.skip(i as int);
        let ghost b = base@.skip(j as int);
        proof {
            assert(b.len() == blen - j);
            assert(b[0] == base@[j as int]);
            assert(b.len() > 1 ==> b[1] == base@[j + 1]);
            assert(b.skip(1) =~= base@.skip(j + 1));
        }
        let c = base[j];
        if c == '/' || (c == '.' && (blen - j == 1 || base[j + 1] == '/')) {
            j += 1;
        } else {
            let i1 = skip_leading(path, i);
            let e = component_end(base, j);
            let n: usize = e - j;
            proof {
                let q = path@.skip(i1 as int);
                assert(q.len() == plen - i1);
                assert(first_len(b) == 1 + first_len(b.skip(1)));
                if n <= q.len() {
                    assert(q.take(n as int) =~= path@.subrange(i1 as int, i1 + n));
                    assert(q.len() > n ==> q[n as int] == path@[i1 + n]);
                    assert(q.skip(n as int) =~= path@.skip(i1 + n));
                }
                assert(b.take(n as int) =~= base@.subrange(j as int, j + n));
                assert(b.skip(n as int) =~= base@.skip(e as int));
            }
            if plen - i1 < n {
                return None;
            }
            if !same_range(path, i1, base, j, n) {
                return None;
            }
            if !(plen - i1 == n || path[i1 + n] == '/') {
                return None;
            }
            i = i1 + n;
            j = e;
        }
    }
    proof {
        assert(base@.skip(j as int) =~= Seq::<char>::empty());
    }
    Some(i)
}

fn at_root(v: &Vec<char>) -> (r: bool)
    ensures
        r == starts_at_root(v@),
{
    v.len() > 0 && v[0] == '/'
}

fn at_here(v: &Vec<char>) -> (r: bool)
    ensures
        r == starts_here(v@),
{
    v.len() > 0 && v[0] == '.' && (v.len() == 1 || v[1] == '/')
}

fn remainder_under(path: &Vec<char>, base: &Vec<char>) -> (r: Option<usize>)
    requires
        base@.len() > 0,
    ensures
        r is Some == lies_under(path@, base@),
        match r {
            Some(k) => k <= path@.len() && after_base(body(path@), body(base@)) == Some(
                path@.skip(k as int),
            ),
            None => true,
        },
{
    let path_root = at_root(path);
    let path_here = at_here(path);
    let base_root = at_root(base);
    let base_here = at_here(base);
    if path_root != base_root || path_here != base_here {
        return None;
    }
    let from: usize = if path_root || path_here { 1 } else { 0 };
    let base_from: usize = if base_root || base_here { 1 } else { 0 };
    proof {
        assert(path@.skip(0) =~= path@);
        assert(base@.skip(0) =~= base@);
    }
    remainder_start(path, base, from, base_from)
}

fn lies_under_chars(path: &Vec<char>, base: &Vec<char>) -> (r: bool)
    ensures
        r == lies_under(path@, base@),
{
    if base.len() == 0 {
        return true;
    }
    remainder_under(path, base).is_some()
}

fn relative_chars(path: &Vec<char>, base: &Vec<char>) -> (r: Option<Vec<char>>)
    ensures
        match r {
            Some(v) => relative_to(path@, base@) == Some(v@),
            None => relative_to(path@, base@) is None,
        },
{
    if base.len() == 0 {
        let end = trimmed_len(path);
        if end == 0 && path.len() > 0 && path[0] == '/' {
            let mut root: Vec<char> = Vec::new();
            root.push('/');
            proof {
                assert(root@ =~= seq!['/']);
            }
            return Some(root);
        }
        proof {
            assert(path@.take(end as int) =~= path@.subrange(0, end as int));
        }
        return Some(copy_range(path, 0, end));
    }
    match remainder_under(path, base) {
        None => None,
        Some(k) => {
            let k1 = skip_leading(path, k);
            proof {
                assert(path@.skip(k1 as int) =~= path@.subrange(k1 as int, path@.len() as int));
            }
            let rest = copy_range(path, k1, path.len());
            let end = trimmed_len(&rest);
            proof {
                assert(rest@.take(end as int) =~= rest@.subrange(0, end as int));
            }
            Some(copy_range(&rest, 0, end))
        },
    }
}

fn has_infix_chars(s: &Vec<char>, needle: &Vec<char>) -> (r: bool)
    ensures
        r == has_infix(s@, needle@),
{
    let m = needle.len();
    if m > s.len() {
        return false;
    }
    if m == 0 {
        proof {
            assert(s@.subrange(0, 0 + m) =~= needle@);
        }
        return true;
    }
    let last: usize = s.len() - m;
    let mut i: usize = 0;
    while i <= last
        invariant
            m == needle@.len(),
            m > 0,
            last + m == s@.len(),
            s@.len() <= usize::MAX,
            i <= last + 1,
            forall|j: int| 0 <= j < i ==> #[trigger] s@.subrange(j, j + m) != needle@,
        decreases last + 1 - i,
    {
        let mut k: usize = 0;
        let mut same = true;
        while k < m
            invariant_except_break
                same,
                s@.subrange(i as int, i + k) == needle@.take(k as int),
            invariant
                m == needle@.len(),
                last + m == s@.len(),
                s@.len() <= usize::MAX,
                i <= last,
                k <= m,
            ensures
                same ==> k == m && s@.subrange(i as int, i + k) == needle@.take(k as int),
                !same ==> s@.subrange(i as int, i + m) != needle@,
            decreases m - k,
        {
            if s[i + k] != needle[k] {
                proof {
                    assert(s@.subrange(i as int, i + m)[k as int] != needle@[k as int]);
                }
                same = false;
                break;
            }
            proof {
                assert(s@.subrange(i as int, i + k + 1) =~= s@.subrange(i as int, i + k).push(s@[i + k]));
                assert(needle@.take(k as int + 1) =~= needle@.take(k as int).push(needle@[k as int]));
            }
            k += 1;
        }
        if same {
            proof {
                assert(needle@.take(m as int) =~= needle@);
            }
            return true;
        }
        i += 1;
    }
    false
}

/// Whether `s` holds `needle` somewhere.
pub fn contains_text(s: &str, needle: &str) -> (r: bool)
    ensures
        r == has_infix(s@, needle@),
{
    let a = to_chars(s);
    let b = to_chars(needle);
    has_infix_chars(&a, &b)
}

/// The last component of `path`, as it is written. It is empty for the root
/// and for the empty path, and it is `.` or `..` where the path is `.` or
/// ends in `..`.
pub fn file_name_of(path: &str) -> (r: String)
    ensures
        r@ == file_name(path@),
{
    let v = to_chars(path);
    let n = file_name_chars(&v);
    from_chars(&n)
}

/// Whether `path` is `base` or lies below it.
pub fn path_lies_under(path: &str, base: &str) -> (r: bool)
    ensures
        r == lies_under(path@, base@),
{
    let a = to_chars(path);
    let b = to_chars(base);
    lies_under_chars(&a, &b)
}

/// The place under `output_root` that mirrors the place of `path` under
/// `input_root`; `None` where `path` does not lie under `input_root`.
pub fn mirror_path(path: &str, input_root: &str, output_root: &str) -> (r: Option<String>)
    ensures
        opt_view(r) == mirrored(path@, input_root@, output_root@),
{
    let p = to_chars(path);
    let root = to_chars(input_root);
    match relative_chars(&p, &root) {
        Some(rel) => {
            let out = to_chars(output_root);
            let j = joined_chars(&out, &rel);
            Some(from_chars(&j))
        },
        None => None,
    }
}

/// The output root of a directory run for which none was given: beside the
/// input directory, under its name followed by `_processed`.
pub fn default_output_root(input_dir: &str) -> (r: String)
    ensures
        r@ == default_root(input_dir@),
        r@ != input_dir@,
{
    proof {
        lemma_default_root_differs(input_dir@);
    }
    let v = to_chars(input_dir);
    let mut name = file_name_chars(&v);
    if !names_entry_chars(&name) {
        name = to_chars("output");
    }
    let mark = to_chars("_processed");
    push_all(&mut name, &mark);
    let d = parent_dir_chars(&v);
    let j = joined_chars(&d, &name);
    from_chars(&j)
}

/// The last dot is a dot, inside the name.
pub proof fn lemma_last_dot(n: Seq<char>)
    ensures
        -1 <= last_dot(n) < n.len(),
        last_dot(n) >= 0 ==> n[last_dot(n)] == '.',
        forall|k: int| last_dot(n) < k < n.len() ==> n[k] != '.',
    decreases n.len(),
{
    if n.len() > 0 && n.last() != '.' {
        let m = n.drop_last();
        lemma_last_dot(m);
        assert forall|k: int| last_dot(n) < k < n.len() implies n[k] != '.' by {
            if k < m.len() {
                assert(m[k] != '.');
            }
        }
    }
}

/// What `trimmed` leaves is a prefix that does not end in `/`.
pub proof fn lemma_trimmed(s: Seq<char>)
    ensures
        trimmed(s).len() <= s.len(),
        trimmed(s) == s.take(trimmed(s).len() as int),
        trimmed(s).len() > 0 ==> trimmed(s).last() != '/',
    decreases s.len(),
{
    if (s.len() > 0 && s.last() == '/') || (s.len() > 1 && s.last() == '.' && s[s.len() - 2]
        == '/') {
        let p = s.drop_last();
        lemma_trimmed(p);
        assert(p.take(trimmed(p).len() as int) =~= s.take(trimmed(p).len() as int));
    } else {
        assert(s.take(s.len() as int) =~= s);
    }
}

/// Before the name stands a `/` or nothing, and the name holds no `/`.
pub proof fn lemma_name_start(s: Seq<char>)
    ensures
        name_start(s) <= s.len(),
        name_start(s) > 0 ==> s[name_start(s) - 1] == '/',
        forall|k: int| name_start(s) <= k < s.len() ==> s[k] != '/',
    decreases s.len(),
{
    if s.len() > 0 && s.last() != '/' {
        let p = s.drop_last();
        lemma_name_start(p);
        assert forall|k: int| name_start(s) <= k < s.len() implies s[k] != '/' by {
            if k < p.len() {
                assert(p[k] != '/');
            }
        }
    }
}

/// A name without `/`, other than `.`, that is put after a directory prefix
/// is the file name of the result.
pub proof fn lemma_file_name_of_concat(prefix: Seq<char>, name: Seq<char>)
    requires
        prefix.len() == 0 || prefix.last() == '/',
        name.len() > 0,
        !name.contains('/'),
        name != seq!['.'],
    ensures
        file_name(prefix + name) == name,
{
    let p = prefix + name;
    assert(p.last() == name.last());
    assert(name.contains(name.last()));
    if name.len() > 1 {
        assert(p[p.len() - 2] == name[name.len() - 2]);
        assert(name.contains(name[name.len() - 2]));
    } else {
        assert(name =~= seq![name[0]]);
    }
    assert(trimmed(p) == p);
    lemma_name_start_of_concat(prefix, name);
    assert(p.skip(prefix.len() as int) =~= name);
}

/// Such a name, joined to a directory, is the file name of the result.
pub proof fn lemma_file_name_of_joined(dir: Seq<char>, name: Seq<char>)
    requires
        name.len() > 0,
        !name.contains('/'),
        name != seq!['.'],
    ensures
        file_name(joined(dir, name)) == name,
{
    assert(name[0] != '/') by {
        assert(name.contains(name[0]));
    }
    if dir.len() == 0 || dir.last() == '/' {
        lemma_file_name_of_concat(dir, name);
    } else {
        lemma_file_name_of_concat(dir + seq!['/'], name);
    }
}

proof fn lemma_name_start_of_concat(prefix: Seq<char>, name: Seq<char>)
    requires
        prefix.len() == 0 || prefix.last() == '/',
        !name.contains('/'),
    ensures
        name_start(prefix + name) == prefix.len(),
    decreases name.len(),
{
    let p = prefix + name;
    if name.len() == 0 {
        assert(p =~= prefix);
    } else {
        assert(name.contains(name.last()));
        assert(p.last() == name.last());
        assert(p.drop_last() =~= prefix + name.drop_last());
        assert forall|k: int| 0 <= k < name.drop_last().len() implies name.drop_last()[k] != '/' by {
            assert(name.contains(name[k]));
        }
        lemma_name_start_of_concat(prefix, name.drop_last());
    }
}

/// The default output root of a directory is never the directory itself.
pub proof fn lemma_default_root_differs(input_dir: Seq<char>)
    ensures
        default_root(input_dir) != input_dir,
{
    reveal_strlit("output");
    reveal_strlit("_processed");
    lemma_trimmed(input_dir);
    lemma_name_start(trimmed(input_dir));
    let n = file_name(input_dir);
    let name = default_root_name(input_dir);
    let mark = "_processed"@;
    assert(name.len() >= 10);
    assert forall|k: int| 0 <= k < name.len() implies name[k] != '/' by {
        if names_entry(n) {
            if k < n.len() {
                assert(name[k] == n[k]);
                assert(n[k] == trimmed(input_dir)[k + name_start(trimmed(input_dir))]);
            } else {
                assert(name[k] == mark[k - n.len()]);
            }
        }
    }
    lemma_file_name_of_joined(parent_dir(input_dir), name);
}

/// The output name holds no `/` and is not the name of the input.
pub proof fn lemma_output_name_differs(p: Seq<char>, extension: Seq<char>)
    requires
        !extension.contains('/'),
    ensures
        output_name(p, extension).len() > 0,
        !output_name(p, extension).contains('/'),
        output_name(p, extension) != file_name(p),
{
    reveal_strlit("output");
    reveal_strlit("_processed.");
    let n = file_name(p);
    let stem = input_stem(p);
    let mark = "_processed."@;
    let out = output_name(p, extension);
    lemma_trimmed(p);
    lemma_name_start(trimmed(p));
    lemma_last_dot(n);
    assert(out.len() == stem.len() + 11 + extension.len());
    assert(out[stem.len() as int] == '_');
    assert forall|k: int| 0 <= k < stem.len() implies stem[k] != '/' by {
        if names_entry(n) {
            assert(stem[k] == n[k]);
            assert(n[k] == trimmed(p)[k + name_start(trimmed(p))]);
        }
    }
    assert forall|k: int| 0 <= k < out.len() implies out[k] != '/' by {
        if k < stem.len() {
            assert(out[k] == stem[k]);
        } else if k < stem.len() + 11 {
            assert(out[k] == mark[k - stem.len()]);
        } else {
            assert(out[k] == extension[k - stem.len() - 11]);
            assert(extension.contains(extension[k - stem.len() - 11]));
        }
    }
    if out == n {
        if names_entry(n) {
            if last_dot(n) > 0 {
                assert(n[stem.len() as int] == '.');
            }
        }
    }
}

/// The output path is never the input path, as long as the extension holds
/// no `/`.
pub proof fn lemma_output_differs(p: Seq<char>, output_dir: Option<Seq<char>>, extension: Seq<char>)
    requires
        !extension.contains('/'),
    ensures
        output_path(p, output_dir, extension) != p,
        file_name(output_path(p, output_dir, extension)) == output_name(p, extension),
{
    reveal_strlit("_processed.");
    let name = output_name(p, extension);
    lemma_output_name_differs(p, extension);
    assert(name.len() >= 11);
    match output_dir {
        Some(dir) => {
            lemma_file_name_of_joined(dir, name);
        },
        None => {
            lemma_file_name_of_joined(parent_dir(p), name);
        },
    }
}

} // verus!
