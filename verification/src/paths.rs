//! Filesystem path text (Unix `/` separators): absolute test, join, file name,
//! extension, stem and parent, as `std::path::Path` computes them.

use vstd::prelude::*;

use crate::text::{chars_of, slice_chars, string_of};

verus! {

/// Last index of `c` in `s`, or -1.
pub open spec fn last_index_of(s: Seq<char>, c: char) -> int
    decreases s.len(),
{
    if s.len() == 0 {
        -1
    } else if s.last() == c {
        s.len() - 1
    } else {
        last_index_of(s.drop_last(), c)
    }
}

pub proof fn lemma_last_index_of(s: Seq<char>, c: char)
    ensures
        -1 <= last_index_of(s, c) < s.len(),
        last_index_of(s, c) >= 0 ==> s[last_index_of(s, c)] == c,
        forall|j: int| last_index_of(s, c) < j < s.len() ==> s[j] != c,
    decreases s.len(),
{
    if s.len() > 0 && s.last() != c {
        lemma_last_index_of(s.drop_last(), c);
        assert forall|j: int| last_index_of(s, c) < j < s.len() implies s[j] != c by {
            if j < s.len() - 1 {
                assert(s.drop_last()[j] == s[j]);
            }
        }
    }
}

/// The last `c` is at `k` when `k` holds one and none follows (`-1`: there is none).
pub proof fn lemma_last_index_at(s: Seq<char>, c: char, k: int)
    requires
        -1 <= k < s.len(),
        k >= 0 ==> s[k] == c,
        forall|j: int| k < j < s.len() ==> s[j] != c,
    ensures
        last_index_of(s, c) == k,
    decreases s.len(),
{
    if s.len() > 0 && s.last() != c {
        assert forall|j: int| k < j < s.drop_last().len() implies s.drop_last()[j] != c by {
            assert(s.drop_last()[j] == s[j]);
        }
        if k >= 0 {
            assert(s.drop_last()[k] == s[k]);
        }
        lemma_last_index_at(s.drop_last(), c, k);
    }
}

/// No character of `s` is `c`.
pub open spec fn lacks(s: Seq<char>, c: char) -> bool {
    forall|i: int| 0 <= i < s.len() ==> s[i] != c
}

/// A plain file name (no separator, not `.` or `..`) joined to any directory is the file
/// name of the result.
pub proof fn lemma_file_name_of_join(d: Seq<char>, name: Seq<char>)
    requires
        name.len() > 0,
        lacks(name, '/'),
        name != seq!['.'],
        name != seq!['.', '.'],
    ensures
        file_name_of(join_path(d, name)) == Some(name),
{
    let p = join_path(d, name);
    assert(name[0] != '/');
    assert(!is_abs(name));
    assert(p.len() > 0 && p.last() == name.last()) by {
        if d.len() > 0 && d.last() != '/' {
            assert(p =~= d + seq!['/'] + name);
        } else {
            assert(p =~= d + name);
        }
    }
    assert(trim_slashes(p) == p);
    let start: int = p.len() - name.len();
    assert(p.subrange(start, p.len() as int) =~= name) by {
        if d.len() > 0 && d.last() != '/' {
            assert(p =~= d + seq!['/'] + name);
        } else {
            assert(p =~= d + name);
        }
    }
    if d.len() > 0 && d.last() != '/' {
        assert(p =~= d + seq!['/'] + name);
        assert(p[d.len() as int] == '/');
        assert forall|j: int| d.len() < j < p.len() implies p[j] != '/' by {
            assert(p[j] == name[j - d.len() - 1]);
        }
        lemma_last_index_at(p, '/', d.len() as int);
    } else if d.len() > 0 {
        assert(p =~= d + name);
        assert(p[d.len() - 1] == '/');
        assert forall|j: int| d.len() - 1 < j < p.len() implies p[j] != '/' by {
            assert(p[j] == name[j - d.len()]);
        }
        lemma_last_index_at(p, '/', d.len() - 1);
    } else {
        assert(p =~= name);
        lemma_last_index_at(p, '/', -1);
    }
}

/// `s` without its trailing `/` characters.
pub open spec fn trim_slashes(s: Seq<char>) -> Seq<char>
    decreases s.len(),
{
    if s.len() > 0 && s.last() == '/' {
        trim_slashes(s.drop_last())
    } else {
        s
    }
}

/// Path starts at the root.
pub open spec fn is_abs(p: Seq<char>) -> bool {
    p.len() > 0 && p[0] == '/'
}

/// `PathBuf::join`: an absolute `p` replaces `base`; otherwise one `/` separates them.
pub open spec fn join_path(base: Seq<char>, p: Seq<char>) -> Seq<char> {
    if is_abs(p) {
        p
    } else if base.len() > 0 && base.last() != '/' {
        base + seq!['/'] + p
    } else {
        base + p
    }
}

/// A relative `p` is taken from `wd`; an absolute one stays.
pub open spec fn resolve_path(wd: Seq<char>, p: Seq<char>) -> Seq<char> {
    if is_abs(p) {
        p
    } else {
        join_path(wd, p)
    }
}

/// The last component of a path, when it is a name.
pub open spec fn file_name_of(p: Seq<char>) -> Option<Seq<char>> {
    let q = trim_slashes(p);
    let seg = q.subrange(last_index_of(q, '/') + 1, q.len() as int);
    if seg.len() == 0 || seg == seq!['.'] || seg == seq!['.', '.'] {
        None
    } else {
        Some(seg)
    }
}

/// Text after the last `.` of the file name (none for a name that only starts with a dot).
pub open spec fn extension_of(p: Seq<char>) -> Option<Seq<char>> {
    match file_name_of(p) {
        None => None,
        Some(n) => {
            let d = last_index_of(n, '.');
            if d <= 0 {
                None
            } else {
                Some(n.subrange(d + 1, n.len() as int))
            }
        },
    }
}

/// File name without its extension.
pub open spec fn file_stem_of(p: Seq<char>) -> Option<Seq<char>> {
    match file_name_of(p) {
        None => None,
        Some(n) => {
            let d = last_index_of(n, '.');
            if d <= 0 {
                Some(n)
            } else {
                Some(n.subrange(0, d))
            }
        },
    }
}

/// The path without its last component (`None` for the root and the empty path).
pub open spec fn parent_of(p: Seq<char>) -> Option<Seq<char>> {
    let q = trim_slashes(p);
    if q.len() == 0 {
        None
    } else {
        let i = last_index_of(q, '/');
        if i < 0 {
            Some(Seq::<char>::empty())
        } else {
            let up = trim_slashes(q.subrange(0, i));
            if up.len() == 0 {
                Some(seq!['/'])
            } else {
                Some(up)
            }
        }
    }
}

/// `{parent}/.voxdecoder/work`: where Job intermediates of `input` go.
pub open spec fn work_dir_of(input: Seq<char>) -> Seq<char> {
    let parent = match parent_of(input) {
        Some(d) => d,
        None => Seq::<char>::empty(),
    };
    join_path(parent, ".voxdecoder/work"@)
}

fn last_index(v: &Vec<char>, c: char) -> (r: Option<usize>)
    ensures
        match r {
            Some(i) => i == last_index_of(v@, c),
            None => last_index_of(v@, c) == -1,
        },
{
    let mut i: usize = v.len();
    assert(v@.subrange(0, i as int) =~= v@);
    while i > 0
        invariant
            i <= v.len(),
            last_index_of(v@, c) == last_index_of(v@.subrange(0, i as int), c),
        decreases i,
    {
        let ghost s = v@.subrange(0, i as int);
        if v[i - 1] == c {
            return Some(i - 1);
        }
        assert(s.drop_last() =~= v@.subrange(0, i - 1));
        i = i - 1;
    }
    None
}

fn trim_slash_len(v: &Vec<char>, end: usize) -> (r: usize)
    requires
        end <= v.len(),
    ensures
        r <= end,
        v@.subrange(0, r as int) == trim_slashes(v@.subrange(0, end as int)),
{
    let mut i: usize = end;
    while i > 0 && v[i - 1] == '/'
        invariant
            i <= end,
            end <= v.len(),
            trim_slashes(v@.subrange(0, end as int)) == trim_slashes(v@.subrange(0, i as int)),
        decreases i,
    {
        assert(v@.subrange(0, i as int).drop_last() =~= v@.subrange(0, i - 1));
        i = i - 1;
    }
    i
}

/// True for a path that starts at the root.
pub fn is_absolute(p: &str) -> (b: bool)
    ensures
        b == is_abs(p@),
{
    let v = chars_of(p);
    v.len() > 0 && v[0] == '/'
}

/// `base.join(p)`.
pub fn join(base: &str, p: &str) -> (r: String)
    ensures
        r@ == join_path(base@, p@),
{
    let b = chars_of(base);
    let q = chars_of(p);
    let mut out: Vec<char> = Vec::new();
    if q.len() > 0 && q[0] == '/' {
        return string_of(&q);
    }
    let mut i: usize = 0;
    while i < b.len()
        invariant
            i <= b.len(),
            out@ == b@.subrange(0, i as int),
        decreases b.len() - i,
    {
        out.push(b[i]);
        i = i + 1;
        assert(out@ =~= b@.subrange(0, i as int));
    }
    if b.len() > 0 && b[b.len() - 1] != '/' {
        out.push('/');
    }
    let ghost mid = out@;
    let mut j: usize = 0;
    while j < q.len()
        invariant
            j <= q.len(),
            out@ == mid + q@.subrange(0, j as int),
        decreases q.len() - j,
    {
        out.push(q[j]);
        j = j + 1;
        assert(out@ =~= mid + q@.subrange(0, j as int));
    }
    assert(b@.subrange(0, b.len() as int) =~= b@);
    assert(q@.subrange(0, q.len() as int) =~= q@);
    string_of(&out)
}

/// A relative `p` taken from `working_dir`; an absolute one as it is.
pub fn resolve_against(working_dir: &str, p: &str) -> (r: String)
    ensures
        r@ == resolve_path(working_dir@, p@),
{
    if is_absolute(p) {
        string_of(&chars_of(p))
    } else {
        join(working_dir, p)
    }
}

/// `Path::file_name`.
pub fn file_name(p: &str) -> (r: Option<String>)
    ensures
        r.is_some() == file_name_of(p@).is_some(),
        r.is_some() ==> r->0@ == file_name_of(p@)->0,
{
    let v = chars_of(p);
    let n = trim_slash_len(&v, v.len());
    let mut q: Vec<char> = Vec::new();
    let mut i: usize = 0;
    while i < n
        invariant
            n <= v.len(),
            i <= n,
            q@ == v@.subrange(0, i as int),
        decreases n - i,
    {
        q.push(v[i]);
        i = i + 1;
        assert(q@ =~= v@.subrange(0, i as int));
    }
    assert(v@.subrange(0, v.len() as int) =~= v@);
    assert(q@ == trim_slashes(v@));
    proof {
        lemma_last_index_of(q@, '/');
    }
    let start: usize = match last_index(&q, '/') {
        Some(i) => i + 1,
        None => 0,
    };
    let mut seg: Vec<char> = Vec::new();
    let mut k: usize = start;
    proof {
        lemma_last_index_of(q@, '/');
    }
    while k < q.len()
        invariant
            start <= k <= q.len(),
            seg@ == q@.subrange(start as int, k as int),
        decreases q.len() - k,
    {
        seg.push(q[k]);
        k = k + 1;
        assert(seg@ =~= q@.subrange(start as int, k as int));
    }
    if seg.len() == 0 || (seg.len() == 1 && seg[0] == '.') || (seg.len() == 2 && seg[0] == '.'
        && seg[1] == '.') {
        assert(seg.len() == 0 || seg@ =~= seq!['.'] || seg@ =~= seq!['.', '.']);
        assert(seg@ == q@.subrange(last_index_of(q@, '/') + 1, q@.len() as int));
        None
    } else {
        assert(!(seg@ =~= seq!['.']) && !(seg@ =~= seq!['.', '.'])) by {
            if seg@ =~= seq!['.'] {
                assert(seg@[0] == '.');
            }
            if seg@ =~= seq!['.', '.'] {
                assert(seg@[0] == '.' && seg@[1] == '.');
            }
        }
        assert(seg@ == q@.subrange(last_index_of(q@, '/') + 1, q@.len() as int));
        Some(string_of(&seg))
    }
}

/// `Path::extension`.
pub fn extension(p: &str) -> (r: Option<String>)
    ensures
        r.is_some() == extension_of(p@).is_some(),
        r.is_some() ==> r->0@ == extension_of(p@)->0,
{
    match file_name(p) {
        None => None,
        Some(n) => {
            let v = chars_of(n.as_str());
            proof {
                lemma_last_index_of(v@, '.');
            }
            match last_index(&v, '.') {
                None => None,
                Some(d) => {
                    if d == 0 {
                        None
                    } else {
                        Some(string_of(&slice_chars(&v, d + 1, v.len())))
                    }
                },
            }
        },
    }
}

/// `Path::file_stem`.
pub fn file_stem(p: &str) -> (r: Option<String>)
    ensures
        r.is_some() == file_stem_of(p@).is_some(),
        r.is_some() ==> r->0@ == file_stem_of(p@)->0,
{
    match file_name(p) {
        None => None,
        Some(n) => {
            let v = chars_of(n.as_str());
            proof {
                lemma_last_index_of(v@, '.');
            }
            match last_index(&v, '.') {
                None => Some(n),
                Some(d) => {
                    if d == 0 {
                        Some(n)
                    } else {
                        Some(string_of(&slice_chars(&v, 0, d)))
                    }
                },
            }
        },
    }
}

/// `Path::parent`.
pub fn parent(p: &str) -> (r: Option<String>)
    ensures
        r.is_some() == parent_of(p@).is_some(),
        r.is_some() ==> r->0@ == parent_of(p@)->0,
{
    let v = chars_of(p);
    let n = trim_slash_len(&v, v.len());
    assert(v@.subrange(0, v.len() as int) =~= v@);
    if n == 0 {
        return None;
    }
    let q = slice_chars(&v, 0, n);
    proof {
        lemma_last_index_of(q@, '/');
    }
    match last_index(&q, '/') {
        None => Some(String::new()),
        Some(i) => {
            let m = trim_slash_len(&q, i);
            if m == 0 {
                let mut root: Vec<char> = Vec::new();
                root.push('/');
                assert(root@ =~= seq!['/']);
                Some(string_of(&root))
            } else {
                assert(q@.subrange(0, m as int).len() == m);
                Some(string_of(&slice_chars(&q, 0, m)))
            }
        },
    }
}

/// `{parent of input}/.voxdecoder/work`.
pub fn work_dir_for_input(input: &str) -> (r: String)
    ensures
        r@ == work_dir_of(input@),
{
    let parent = match parent(input) {
        Some(d) => d,
        None => String::new(),
    };
    join(parent.as_str(), ".voxdecoder/work")
}

} // verus!
