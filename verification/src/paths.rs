//! Unix paths as raw bytes: absoluteness, joining, parents, plain file
//! names and `file:` URIs.

use vstd::prelude::*;
use crate::text::{append_all, byte_views, chars_of, lossy_string, string_of, utf8_lossy};

verus! {

/// `Path::is_absolute` on Unix: the path starts at the root.
pub open spec fn is_absolute(p: Seq<u8>) -> bool {
    p.len() > 0 && p[0] == 0x2Fu8
}

/// `Path::join` on Unix: an absolute `name` replaces `base`; otherwise a
/// separator is put between them unless `base` is empty or already ends
/// with one.
pub open spec fn join(base: Seq<u8>, name: Seq<u8>) -> Seq<u8> {
    if is_absolute(name) {
        name
    } else if base.len() > 0 && base[base.len() - 1] != 0x2Fu8 {
        base + seq![0x2Fu8] + name
    } else {
        base + name
    }
}

pub fn path_is_absolute(p: &[u8]) -> (r: bool)
    ensures
        r == is_absolute(p@),
{
    p.len() > 0 && p[0] == 0x2F
}

pub(crate) fn push_all(out: &mut Vec<u8>, src: &[u8])
    ensures
        final(out)@ == old(out)@ + src@,
{
    let ghost start = out@;
    let mut i: usize = 0;
    while i < src.len()
        invariant
            i <= src@.len(),
            out@ == start + src@.subrange(0, i as int),
        decreases src@.len() - i,
    {
        out.push(src[i]);
        proof {
            assert(start + src@.subrange(0, i + 1) =~= (start + src@.subrange(0, i as int)).push(
                src@[i as int],
            ));
        }
        i = i + 1;
    }
    proof {
        assert(src@.subrange(0, src@.len() as int) =~= src@);
    }
}

/// A copy of some bytes.
pub fn copy_bytes(src: &[u8]) -> (r: Vec<u8>)
    ensures
        r@ == src@,
{
    let mut out: Vec<u8> = Vec::new();
    push_all(&mut out, src);
    proof {
        assert(out@ =~= src@);
    }
    out
}

/// `base.join(name)`.
pub fn join_path(base: &[u8], name: &[u8]) -> (r: Vec<u8>)
    ensures
        r@ == join(base@, name@),
{
    let mut out: Vec<u8> = Vec::new();
    if path_is_absolute(name) {
        push_all(&mut out, name);
        proof {
            assert(out@ =~= name@);
        }
        return out;
    }
    push_all(&mut out, base);
    if base.len() > 0 && base[base.len() - 1] != 0x2F {
        out.push(0x2F);
    }
    push_all(&mut out, name);
    proof {
        assert(out@ =~= join(base@, name@));
    }
    out
}

/// A relative path that starts with the `.` component (`.` or `./...`).
pub open spec fn has_cur_dir_prefix(p: Seq<u8>) -> bool {
    !is_absolute(p) && p.len() > 0 && p[0] == 0x2Eu8 && (p.len() == 1 || p[1] == 0x2Fu8)
}

/// Where the components after the root or the leading `.` begin.
pub open spec fn body_start(p: Seq<u8>) -> int {
    if is_absolute(p) || has_cur_dir_prefix(p) {
        1
    } else {
        0
    }
}

/// The last separator in `p[lo..m]`, or -1.
pub open spec fn last_separator(p: Seq<u8>, lo: int, m: int) -> int
    decreases m - lo,
{
    if m <= lo {
        -1
    } else if p[m - 1] == 0x2Fu8 {
        m - 1
    } else {
        last_separator(p, lo, m - 1)
    }
}

/// Where the last component of `p[..m]` begins.
pub open spec fn component_start(p: Seq<u8>, lo: int, m: int) -> int {
    let j = last_separator(p, lo, m);
    if j >= 0 {
        j + 1
    } else {
        lo
    }
}

/// The length of `p[..m]` once its last component and the separator before
/// it are cut off.
pub open spec fn component_cut(p: Seq<u8>, lo: int, m: int) -> int {
    let j = last_separator(p, lo, m);
    if j >= 0 {
        j
    } else {
        lo
    }
}

/// `p[a..b]` is empty or `.`: no component.
pub open spec fn is_ignored_component(p: Seq<u8>, a: int, b: int) -> bool {
    b == a || (b == a + 1 && p[a] == 0x2Eu8)
}

pub proof fn lemma_last_separator_range(p: Seq<u8>, lo: int, m: int)
    ensures
        last_separator(p, lo, m) == -1 || (lo <= last_separator(p, lo, m) < m && p[last_separator(
            p,
            lo,
            m,
        )] == 0x2Fu8),
        forall|k: int|
            last_separator(p, lo, m) < k < m && lo <= k ==> p[k] != 0x2Fu8,
    decreases m - lo,
{
    if m > lo && p[m - 1] != 0x2Fu8 {
        lemma_last_separator_range(p, lo, m - 1);
    }
}

/// The end of `p[..m]` once trailing separators and `.` components are
/// dropped, as `Path` does before it takes the last component.
pub open spec fn trimmed_end(p: Seq<u8>, lo: int, m: int) -> int
    decreases m,
{
    if m <= lo || lo < 0 {
        m
    } else if is_ignored_component(p, component_start(p, lo, m), m) {
        proof {
            lemma_last_separator_range(p, lo, m);
        }
        trimmed_end(p, lo, component_cut(p, lo, m))
    } else {
        m
    }
}

/// `Path::parent` on Unix: the path without its last component and without
/// the trailing separators and `.` components around it. The root and the
/// empty path have none; a single relative component, and `.`, have the
/// empty path as parent.
pub open spec fn parent(p: Seq<u8>) -> Option<Seq<u8>> {
    let lo = body_start(p);
    let m = trimmed_end(p, lo, p.len() as int);
    if m > lo {
        Some(p.take(trimmed_end(p, lo, component_cut(p, lo, m))))
    } else if has_cur_dir_prefix(p) {
        Some(Seq::empty())
    } else {
        None
    }
}

fn last_separator_in(p: &[u8], lo: usize, m: usize) -> (j: Option<usize>)
    requires
        lo <= m <= p@.len(),
    ensures
        match j {
            Some(k) => last_separator(p@, lo as int, m as int) == k,
            None => last_separator(p@, lo as int, m as int) == -1,
        },
{
    let mut i = m;
    while i > lo && p[i - 1] != 0x2F
        invariant
            lo <= i <= m <= p@.len(),
            last_separator(p@, lo as int, m as int) == last_separator(p@, lo as int, i as int),
        decreases i,
    {
        i = i - 1;
    }
    if i > lo {
        Some(i - 1)
    } else {
        None
    }
}

fn cut_points(p: &[u8], lo: usize, m: usize) -> (r: (usize, usize))
    requires
        lo < m <= p@.len(),
    ensures
        r.0 == component_start(p@, lo as int, m as int),
        r.1 == component_cut(p@, lo as int, m as int),
        lo <= r.1 < r.0 <= m || (r.1 == lo && r.0 == lo),
{
    proof {
        lemma_last_separator_range(p@, lo as int, m as int);
    }
    match last_separator_in(p, lo, m) {
        Some(j) => (j + 1, j),
        None => (lo, lo),
    }
}

fn trimmed_end_of(p: &[u8], lo: usize, m: usize) -> (r: usize)
    requires
        lo <= m <= p@.len(),
    ensures
        r == trimmed_end(p@, lo as int, m as int),
        r <= m,
{
    let mut e = m;
    while e > lo
        invariant
            lo <= e <= m <= p@.len(),
            trimmed_end(p@, lo as int, m as int) == trimmed_end(p@, lo as int, e as int),
        decreases e,
    {
        let (a, cut) = cut_points(p, lo, e);
        let ignored = e == a || (e == a + 1 && p[a] == 0x2E);
        if !ignored {
            return e;
        }
        e = cut;
    }
    e
}

/// The parent directory of a path, as `Path::parent` gives it.
pub fn parent_dir_from_path(path: &[u8]) -> (r: Option<Vec<u8>>)
    ensures
        match r {
            Some(v) => parent(path@) == Some(v@),
            None => parent(path@) is None,
        },
{
    let absolute = path_is_absolute(path);
    let cur = !absolute && path.len() > 0 && path[0] == 0x2E && (path.len() == 1 || path[1] == 0x2F);
    let lo: usize = if absolute || cur {
        1
    } else {
        0
    };
    let m = trimmed_end_of(path, lo, path.len());
    if m > lo {
        let (_, cut) = cut_points(path, lo, m);
        let end = trimmed_end_of(path, lo, cut);
        let mut out: Vec<u8> = Vec::new();
        let mut i: usize = 0;
        while i < end
            invariant
                end <= path@.len(),
                i <= end,
                out@ == path@.take(i as int),
            decreases end - i,
        {
            out.push(path[i]);
            proof {
                assert(path@.take(i + 1) =~= path@.take(i as int).push(path@[i as int]));
            }
            i = i + 1;
        }
        Some(out)
    } else if cur {
        Some(Vec::new())
    } else {
        None
    }
}

/// Where the first separator of `s` stands, or its length.
pub open spec fn separator_pos(s: Seq<u8>) -> nat
    decreases s.len(),
{
    if s.len() == 0 || s[0] == 0x2Fu8 {
        0
    } else {
        1 + separator_pos(s.drop_first())
    }
}

pub proof fn lemma_separator_pos_bound(s: Seq<u8>)
    ensures
        separator_pos(s) <= s.len(),
    decreases s.len(),
{
    if s.len() > 0 && s[0] != 0x2Fu8 {
        lemma_separator_pos_bound(s.drop_first());
    }
}

proof fn lemma_separator_pos_at(s: Seq<u8>, k: int)
    requires
        0 <= k <= s.len(),
        forall|j: int| 0 <= j < k ==> s[j] != 0x2Fu8,
        k == s.len() || s[k] == 0x2Fu8,
    ensures
        separator_pos(s) == k,
    decreases k,
{
    if k > 0 {
        lemma_separator_pos_at(s.drop_first(), k - 1);
    }
}

/// The components of a path body: its `/`-separated parts, without the
/// empty ones and `.`.
pub open spec fn segments(s: Seq<u8>) -> Seq<Seq<u8>>
    decreases s.len(),
{
    proof {
        lemma_separator_pos_bound(s);
    }
    let k = separator_pos(s) as int;
    let seg = s.take(k);
    let rest = if k < s.len() {
        segments(s.skip(k + 1))
    } else {
        Seq::empty()
    };
    if seg.len() == 0 || seg == seq![0x2Eu8] {
        rest
    } else {
        seq![seg] + rest
    }
}

/// `Path::components` on Unix: the root as `/`, a leading current
/// directory as `.`, then the other components.
pub open spec fn components(p: Seq<u8>) -> Seq<Seq<u8>> {
    let head = if is_absolute(p) {
        seq![seq![0x2Fu8]]
    } else if has_cur_dir_prefix(p) {
        seq![seq![0x2Eu8]]
    } else {
        Seq::empty()
    };
    head + segments(p.skip(body_start(p)))
}

/// `Path::starts_with`: the components of `base` begin those of `p`.
pub open spec fn path_starts_with(p: Seq<u8>, base: Seq<u8>) -> bool {
    let c = components(p);
    let b = components(base);
    b.len() <= c.len() && c.take(b.len() as int) == b
}

proof fn lemma_separator_pos_props(s: Seq<u8>)
    ensures
        separator_pos(s) <= s.len(),
        forall|j: int| 0 <= j < separator_pos(s) ==> s[j] != 0x2Fu8,
        separator_pos(s) < s.len() ==> s[separator_pos(s) as int] == 0x2Fu8,
    decreases s.len(),
{
    if s.len() > 0 && s[0] != 0x2Fu8 {
        lemma_separator_pos_props(s.drop_first());
        assert forall|j: int| 0 <= j < separator_pos(s) implies s[j] != 0x2Fu8 by {
            if j > 0 {
                assert(s[j] == s.drop_first()[j - 1]);
            }
        }
    }
}

/// Splitting at a separator splits the components.
proof fn lemma_segments_concat(a: Seq<u8>, b: Seq<u8>)
    ensures
        segments(a + seq![0x2Fu8] + b) == segments(a) + segments(b),
    decreases a.len(),
{
    let s = a + seq![0x2Fu8] + b;
    lemma_separator_pos_props(a);
    let k = separator_pos(a) as int;
    assert(s[k] == 0x2Fu8);
    assert forall|j: int| 0 <= j < k implies s[j] != 0x2Fu8 by {
        assert(s[j] == a[j]);
    }
    lemma_separator_pos_at(s, k);
    assert(s.take(k) =~= a.take(k));
    if k < a.len() {
        assert(s.skip(k + 1) =~= a.skip(k + 1) + seq![0x2Fu8] + b);
        lemma_segments_concat(a.skip(k + 1), b);
        assert(segments(s) =~= segments(a) + segments(b));
    } else {
        assert(s.skip(k + 1) =~= b);
        assert(a.take(k) =~= a);
        assert(segments(a) == (if a.len() == 0 || a == seq![0x2Eu8] {
            Seq::<Seq<u8>>::empty()
        } else {
            seq![a]
        }));
        assert(segments(s) =~= segments(a) + segments(b));
    }
}

/// What follows a separator in separators and `.` components is again
/// only separators and `.` components.
proof fn lemma_only_separators_suffix(r: Seq<u8>, m: int)
    requires
        only_separators_and_dots(r),
        0 <= m <= r.len(),
        m == 0 || r[m - 1] == 0x2Fu8,
    ensures
        only_separators_and_dots(r.skip(m)),
{
    let t = r.skip(m);
    assert forall|i: int| 0 <= i < t.len() && #[trigger] t[i] != 0x2Fu8 implies t[i] == 0x2Eu8 && (
    i == 0 || t[i - 1] == 0x2Fu8) && (i + 1 == t.len() || t[i + 1] == 0x2Fu8) by {
        assert(t[i] == r[m + i]);
        if i > 0 {
            assert(t[i - 1] == r[m + i - 1]);
        }
        if i + 1 < t.len() {
            assert(t[i + 1] == r[m + i + 1]);
        }
    }
}

/// Separators and `.` components make no components.
proof fn lemma_only_separators_no_segments(r: Seq<u8>)
    requires
        only_separators_and_dots(r),
    ensures
        segments(r) == Seq::<Seq<u8>>::empty(),
    decreases r.len(),
{
    if r.len() > 0 {
        lemma_separator_pos_props(r);
        let k = separator_pos(r) as int;
        if k > 0 {
            assert(r[0] != 0x2Fu8);
            assert(r[0] == 0x2Eu8);
            assert(k == 1) by {
                if r.len() > 1 {
                    assert(r[1] == 0x2Fu8);
                }
            }
            assert(r.take(1) =~= seq![0x2Eu8]);
        }
        if k < r.len() {
            lemma_only_separators_suffix(r, k + 1);
            lemma_only_separators_no_segments(r.skip(k + 1));
        }
    }
}

proof fn lemma_first_component_is_separator_pos(n: Seq<u8>)
    ensures
        first_component_len(n) == separator_pos(n),
    decreases n.len(),
{
    if n.len() > 0 && n[0] != 0x2Fu8 {
        lemma_first_component_is_separator_pos(n.drop_first());
    }
}

/// A plain file name is exactly one component.
proof fn lemma_plain_name_segments(n: Seq<u8>)
    requires
        is_plain_file_name(n),
    ensures
        segments(n) == seq![n.take(first_component_len(n))],
{
    lemma_first_component_is_separator_pos(n);
    lemma_separator_pos_props(n);
    let k = separator_pos(n) as int;
    assert(k > 0);
    if k < n.len() {
        let r = n.skip(k);
        assert(r[0] == 0x2Fu8);
        lemma_only_separators_suffix(r, 1);
        assert(r.skip(1) =~= n.skip(k + 1));
        lemma_only_separators_no_segments(n.skip(k + 1));
    }
    assert(segments(n) =~= seq![n.take(k)]);
}

/// SaveFiles names stay in the chosen directory: joining a plain file name
/// to a directory gives the directory's components and one more, the name.
pub proof fn lemma_plain_name_joins_as_child(directory: Seq<u8>, name: Seq<u8>)
    requires
        is_plain_file_name(name),
    ensures
        components(join(directory, name)) == components(directory).push(
            name.take(first_component_len(name)),
        ),
        path_starts_with(join(directory, name), directory),
{
    let d = directory;
    let n = name;
    let n0 = n.take(first_component_len(n));
    lemma_plain_name_segments(n);
    lemma_first_component_is_separator_pos(n);
    lemma_separator_pos_props(n);
    assert(!is_absolute(n));
    assert(!has_cur_dir_prefix(n)) by {
        if has_cur_dir_prefix(n) {
            assert(first_component_len(n) == 1);
            assert(n.take(1) =~= seq![0x2Eu8]);
        }
    }
    let j = join(d, n);
    if d.len() == 0 {
        assert(j =~= n);
        assert(n.skip(0) =~= n);
        assert(d.skip(0) =~= Seq::<u8>::empty());
        assert(components(j) =~= components(d).push(n0));
    } else if d[d.len() - 1] != 0x2Fu8 {
        assert(j == d + seq![0x2Fu8] + n);
        let bs = body_start(d);
        assert(j[0] == d[0]);
        if d.len() > 1 {
            assert(j[1] == d[1]);
        } else {
            assert(j[1] == 0x2Fu8);
        }
        assert(body_start(j) == bs);
        assert(j.skip(bs) =~= d.skip(bs) + seq![0x2Fu8] + n);
        lemma_segments_concat(d.skip(bs), n);
        assert(components(j) =~= components(d).push(n0));
    } else {
        assert(j == d + n);
        let bs = body_start(d);
        let dp = d.drop_last();
        if d.len() == 1 {
            assert(bs == 1);
            assert(d.skip(1) =~= Seq::<u8>::empty());
            assert(j.skip(1) =~= n);
            assert(j[0] == 0x2Fu8);
            assert(components(j) =~= components(d).push(n0));
        } else {
            assert(j[0] == d[0]);
            assert(j[1] == d[1]);
            assert(body_start(j) == bs);
            assert(d.skip(bs) =~= dp.skip(bs) + seq![0x2Fu8] + Seq::<u8>::empty());
            assert(j.skip(bs) =~= dp.skip(bs) + seq![0x2Fu8] + n);
            lemma_segments_concat(dp.skip(bs), Seq::<u8>::empty());
            lemma_segments_concat(dp.skip(bs), n);
            assert(segments(Seq::<u8>::empty()) =~= Seq::<Seq<u8>>::empty());
            assert(components(j) =~= components(d).push(n0));
        }
    }
    let c = components(j);
    let b = components(d);
    assert(c.take(b.len() as int) =~= b);
}

/// Whether two byte strings are equal.
pub fn bytes_equal(a: &[u8], b: &[u8]) -> (r: bool)
    ensures
        r == (a@ == b@),
{
    if a.len() != b.len() {
        return false;
    }
    let mut i: usize = 0;
    while i < a.len()
        invariant
            a@.len() == b@.len(),
            i <= a@.len(),
            forall|j: int| 0 <= j < i ==> a@[j] == b@[j],
        decreases a@.len() - i,
    {
        if a[i] != b[i] {
            return false;
        }
        i = i + 1;
    }
    proof {
        assert(a@ =~= b@);
    }
    true
}

pub(crate) fn bytes_between(p: &[u8], a: usize, b: usize) -> (r: Vec<u8>)
    requires
        a <= b <= p@.len(),
    ensures
        r@ == p@.subrange(a as int, b as int),
{
    let mut out: Vec<u8> = Vec::new();
    let mut i = a;
    while i < b
        invariant
            a <= i <= b <= p@.len(),
            out@ == p@.subrange(a as int, i as int),
        decreases b - i,
    {
        out.push(p[i]);
        proof {
            assert(out@ =~= p@.subrange(a as int, i + 1));
        }
        i = i + 1;
    }
    out
}

/// The components of a path.
pub fn path_components(p: &[u8]) -> (r: Vec<Vec<u8>>)
    ensures
        byte_views(r@) == components(p@),
{
    let n = p.len();
    let absolute = path_is_absolute(p);
    let cur = !absolute && n > 0 && p[0] == 0x2E && (n == 1 || p[1] == 0x2F);
    let mut out: Vec<Vec<u8>> = Vec::new();
    if absolute {
        let mut root: Vec<u8> = Vec::new();
        root.push(0x2F);
        out.push(root);
    } else if cur {
        let mut dot: Vec<u8> = Vec::new();
        dot.push(0x2E);
        out.push(dot);
    }
    let from: usize = if absolute || cur {
        1
    } else {
        0
    };
    let ghost body = p@.skip(from as int);
    proof {
        assert(byte_views(out@) =~= components(p@).take(out@.len() as int));
        assert(components(p@) =~= byte_views(out@) + segments(body));
    }
    let mut start = from;
    let mut i = from;
    while i < n
        invariant
            n == p@.len(),
            from <= start <= i <= n,
            forall|j: int| start <= j < i ==> p@[j] != 0x2Fu8,
            byte_views(out@) + segments(p@.skip(start as int)) == components(p@),
        decreases n - i,
    {
        if p[i] == 0x2F {
            let ghost rest = p@.skip(start as int);
            proof {
                lemma_separator_pos_at(rest, i - start);
                assert(rest.take(i - start) =~= p@.subrange(start as int, i as int));
                assert(rest.skip(i - start + 1) =~= p@.skip(i + 1));
            }
            let ignored = i == start || (i == start + 1 && p[start] == 0x2E);
            proof {
                let seg = p@.subrange(start as int, i as int);
                if i == start + 1 && p@[start as int] == 0x2Eu8 {
                    assert(seg =~= seq![0x2Eu8]);
                }
                if !ignored && i == start + 1 {
                    assert(seg[0] != 0x2Eu8);
                }
                if seg =~= seq![0x2Eu8] {
                    assert(seg.len() == 1);
                }
            }
            if !ignored {
                let ghost prev = out@;
                out.push(bytes_between(p, start, i));
                proof {
                    assert(byte_views(out@) =~= byte_views(prev).push(p@.subrange(start as int, i as int)));
                    assert(byte_views(out@) + segments(p@.skip(i + 1)) =~= byte_views(prev) + segments(
                        rest,
                    ));
                }
            }
            start = i + 1;
        }
        i = i + 1;
    }
    let ghost rest = p@.skip(start as int);
    proof {
        lemma_separator_pos_at(rest, n - start);
        assert(rest.take(n - start) =~= p@.subrange(start as int, n as int));
        assert(rest.skip(n - start) =~= Seq::<u8>::empty());
    }
    let ignored = n == start || (n == start + 1 && p[start] == 0x2E);
    proof {
        let seg = p@.subrange(start as int, n as int);
        if n == start + 1 && p@[start as int] == 0x2Eu8 {
            assert(seg =~= seq![0x2Eu8]);
        }
        if seg =~= seq![0x2Eu8] {
            assert(seg.len() == 1);
        }
    }
    if !ignored {
        let ghost prev = out@;
        out.push(bytes_between(p, start, n));
        proof {
            assert(byte_views(out@) =~= byte_views(prev).push(p@.subrange(start as int, n as int)));
            assert(byte_views(out@) =~= byte_views(prev) + segments(rest));
        }
    } else {
        proof {
            assert(byte_views(out@) =~= byte_views(out@) + segments(rest));
        }
    }
    out
}

/// Whether `base` is a leading part of `path`, component by component.
pub fn starts_with_path(path: &[u8], base: &[u8]) -> (r: bool)
    ensures
        r == path_starts_with(path@, base@),
{
    let c = path_components(path);
    let b = path_components(base);
    if b.len() > c.len() {
        return false;
    }
    let mut i: usize = 0;
    while i < b.len()
        invariant
            b@.len() <= c@.len(),
            i <= b@.len(),
            byte_views(c@) == components(path@),
            byte_views(b@) == components(base@),
            forall|j: int| 0 <= j < i ==> c@[j]@ == b@[j]@,
        decreases b@.len() - i,
    {
        if !bytes_equal(c[i].as_slice(), b[i].as_slice()) {
            proof {
                assert(byte_views(c@)[i as int] == c@[i as int]@);
                assert(byte_views(b@)[i as int] == b@[i as int]@);
                assert(byte_views(c@).take(b@.len() as int)[i as int] != byte_views(b@)[i as int]);
            }
            return false;
        }
        i = i + 1;
    }
    proof {
        assert(byte_views(c@).take(b@.len() as int) =~= byte_views(b@));
    }
    true
}

/// The length of the first component of a relative path: the bytes before
/// its first separator.
pub open spec fn first_component_len(n: Seq<u8>) -> int
    decreases n.len(),
{
    if n.len() == 0 || n[0] == 0x2Fu8 {
        0
    } else {
        1 + first_component_len(n.drop_first())
    }
}

/// Everything after the first component is separators and `.` components.
pub open spec fn only_separators_and_dots(r: Seq<u8>) -> bool {
    forall|i: int|
        0 <= i < r.len() && #[trigger] r[i] != 0x2Fu8 ==> r[i] == 0x2Eu8 && (i == 0 || r[i - 1] == 0x2Fu8) && (
        i + 1 == r.len() || r[i + 1] == 0x2Fu8)
}

/// A name that is exactly one normal path component: not absolute, not `.`
/// or `..`, and followed by nothing but separators and `.` components.
pub open spec fn is_plain_file_name(n: Seq<u8>) -> bool {
    let k = first_component_len(n);
    &&& n.len() > 0
    &&& n[0] != 0x2Fu8
    &&& n.take(k) != seq![0x2Eu8]
    &&& n.take(k) != seq![0x2Eu8, 0x2Eu8]
    &&& only_separators_and_dots(n.skip(k))
}

proof fn lemma_first_component_len(n: Seq<u8>, k: int)
    requires
        0 <= k <= n.len(),
        forall|j: int| 0 <= j < k ==> n[j] != 0x2Fu8,
        k == n.len() || n[k] == 0x2Fu8,
    ensures
        first_component_len(n) == k,
    decreases k,
{
    if k > 0 {
        lemma_first_component_len(n.drop_first(), k - 1);
    }
}

/// A nonempty name with no `/` that is neither `.` nor `..` is a plain file
/// name, whatever other bytes it holds.
pub proof fn lemma_slash_free_names_are_plain(n: Seq<u8>)
    requires
        n.len() > 0,
        forall|i: int| 0 <= i < n.len() ==> n[i] != 0x2Fu8,
        n != seq![0x2Eu8],
        n != seq![0x2Eu8, 0x2Eu8],
    ensures
        is_plain_file_name(n),
{
    lemma_first_component_len(n, n.len() as int);
    assert(n.take(n.len() as int) =~= n);
    assert(n.skip(n.len() as int).len() == 0);
}

/// Whether a name is plain depends only on where it holds `/` and `.`: two
/// names of one length with `/` and `.` at the same places are both plain or
/// both not.
pub proof fn lemma_plainness_depends_on_slashes_and_dots(n: Seq<u8>, m: Seq<u8>)
    requires
        n.len() == m.len(),
        forall|i: int| 0 <= i < n.len() ==> (n[i] == 0x2Fu8) == (m[i] == 0x2Fu8) && (n[i] == 0x2Eu8)
            == (m[i] == 0x2Eu8),
    ensures
        is_plain_file_name(n) == is_plain_file_name(m),
{
    lemma_first_component_len_agrees(n, m);
    let k = first_component_len(n);
    lemma_first_component_len_range(n);
    let a = n.skip(k);
    let b = m.skip(k);
    assert forall|i: int| 0 <= i < a.len() implies (a[i] == 0x2Fu8) == (b[i] == 0x2Fu8) && (a[i]
        == 0x2Eu8) == (b[i] == 0x2Eu8) by {
        assert(a[i] == n[k + i] && b[i] == m[k + i]);
    }
    if only_separators_and_dots(a) {
        assert forall|i: int| 0 <= i < b.len() && #[trigger] b[i] != 0x2Fu8 implies b[i] == 0x2Eu8
            && (i == 0 || b[i - 1] == 0x2Fu8) && (i + 1 == b.len() || b[i + 1] == 0x2Fu8) by {
            assert(a[i] != 0x2Fu8);
        }
    }
    if only_separators_and_dots(b) {
        assert forall|i: int| 0 <= i < a.len() && #[trigger] a[i] != 0x2Fu8 implies a[i] == 0x2Eu8
            && (i == 0 || a[i - 1] == 0x2Fu8) && (i + 1 == a.len() || a[i + 1] == 0x2Fu8) by {
            assert(b[i] != 0x2Fu8);
        }
    }
    if k == 1 {
        assert(n.take(1) == seq![0x2Eu8] <==> n[0] == 0x2Eu8) by {
            assert(n.take(1)[0] == n[0]);
            assert(seq![0x2Eu8][0] == 0x2Eu8);
            if n[0] == 0x2Eu8 {
                assert(n.take(1) =~= seq![0x2Eu8]);
            }
        }
        assert(m.take(1) == seq![0x2Eu8] <==> m[0] == 0x2Eu8) by {
            assert(m.take(1)[0] == m[0]);
            assert(seq![0x2Eu8][0] == 0x2Eu8);
            if m[0] == 0x2Eu8 {
                assert(m.take(1) =~= seq![0x2Eu8]);
            }
        }
    }
    if k == 2 {
        assert(n.take(2) == seq![0x2Eu8, 0x2Eu8] <==> (n[0] == 0x2Eu8 && n[1] == 0x2Eu8)) by {
            assert(n.take(2)[0] == n[0] && n.take(2)[1] == n[1]);
            assert(seq![0x2Eu8, 0x2Eu8][0] == 0x2Eu8 && seq![0x2Eu8, 0x2Eu8][1] == 0x2Eu8);
            if n[0] == 0x2Eu8 && n[1] == 0x2Eu8 {
                assert(n.take(2) =~= seq![0x2Eu8, 0x2Eu8]);
            }
        }
        assert(m.take(2) == seq![0x2Eu8, 0x2Eu8] <==> (m[0] == 0x2Eu8 && m[1] == 0x2Eu8)) by {
            assert(m.take(2)[0] == m[0] && m.take(2)[1] == m[1]);
            assert(seq![0x2Eu8, 0x2Eu8][0] == 0x2Eu8 && seq![0x2Eu8, 0x2Eu8][1] == 0x2Eu8);
            if m[0] == 0x2Eu8 && m[1] == 0x2Eu8 {
                assert(m.take(2) =~= seq![0x2Eu8, 0x2Eu8]);
            }
        }
    }
    if n.len() > 0 {
        assert((n[0] == 0x2Fu8) == (m[0] == 0x2Fu8));
    }
}

proof fn lemma_first_component_len_range(n: Seq<u8>)
    ensures
        0 <= first_component_len(n) <= n.len(),
    decreases n.len(),
{
    if n.len() > 0 && n[0] != 0x2Fu8 {
        lemma_first_component_len_range(n.drop_first());
    }
}

proof fn lemma_first_component_len_agrees(n: Seq<u8>, m: Seq<u8>)
    requires
        n.len() == m.len(),
        forall|i: int| 0 <= i < n.len() ==> (n[i] == 0x2Fu8) == (m[i] == 0x2Fu8),
    ensures
        first_component_len(n) == first_component_len(m),
    decreases n.len(),
{
    if n.len() > 0 && n[0] != 0x2Fu8 {
        assert forall|i: int| 0 <= i < n.drop_first().len() implies (n.drop_first()[i] == 0x2Fu8) == (
        m.drop_first()[i] == 0x2Fu8) by {
            assert(n.drop_first()[i] == n[i + 1] && m.drop_first()[i] == m[i + 1]);
        }
        lemma_first_component_len_agrees(n.drop_first(), m.drop_first());
    }
}

/// Whether a name is a single normal path component, so that joining it to
/// a directory names an entry of that directory.
pub fn is_safe_file_name(name: &[u8]) -> (r: bool)
    ensures
        r == is_plain_file_name(name@),
{
    let n = name.len();
    if n == 0 || name[0] == 0x2F {
        return false;
    }
    let mut k: usize = 0;
    while k < n && name[k] != 0x2F
        invariant
            k <= n == name@.len(),
            forall|j: int| 0 <= j < k ==> name@[j] != 0x2Fu8,
        decreases n - k,
    {
        k = k + 1;
    }
    proof {
        lemma_first_component_len(name@, k as int);
    }
    if (k == 1 && name[0] == 0x2E) || (k == 2 && name[0] == 0x2E && name[1] == 0x2E) {
        proof {
            if k == 1 {
                assert(name@.take(1) =~= seq![0x2Eu8]);
            } else {
                assert(name@.take(2) =~= seq![0x2Eu8, 0x2Eu8]);
            }
        }
        return false;
    }
    proof {
        if k == 1 {
            assert(name@.take(1)[0] != 0x2Eu8);
        } else {
            assert(name@.take(k as int).len() != seq![0x2Eu8].len());
        }
        if k == 2 {
            assert(name@.take(2)[0] != 0x2Eu8 || name@.take(2)[1] != 0x2Eu8);
        } else {
            assert(name@.take(k as int).len() != seq![0x2Eu8, 0x2Eu8].len());
        }
    }
    let ghost rest = name@.skip(k as int);
    let mut i = k;
    while i < n
        invariant
            1 <= k <= i <= n == name@.len(),
            k < n ==> name@[k as int] == 0x2Fu8,
            name@[0] != 0x2Fu8,
            first_component_len(name@) == k,
            name@.take(k as int) != seq![0x2Eu8],
            name@.take(k as int) != seq![0x2Eu8, 0x2Eu8],
            rest == name@.skip(k as int),
            forall|j: int|
                0 <= j < i - k && #[trigger] rest[j] != 0x2Fu8 ==> rest[j] == 0x2Eu8 && (j == 0
                    || rest[j - 1] == 0x2Fu8) && (j + 1 == rest.len() || rest[j + 1] == 0x2Fu8),
        decreases n - i,
    {
        if name[i] != 0x2F {
            let good = name[i] == 0x2E && name[i - 1] == 0x2F && (i + 1 == n || name[i + 1] == 0x2F);
            if !good {
                proof {
                    let j = i - k;
                    assert(j > 0);
                    assert(rest[j] == name@[i as int]);
                    assert(rest[j - 1] == name@[i - 1]);
                    if j + 1 < rest.len() {
                        assert(rest[j + 1] == name@[i + 1]);
                    }
                    assert(!only_separators_and_dots(rest));
                }
                return false;
            }
        }
        proof {
            let j = i - k;
            assert(rest[j] == name@[i as int]);
            if j > 0 {
                assert(rest[j - 1] == name@[i - 1]);
            }
            if j + 1 < rest.len() {
                assert(rest[j + 1] == name@[i + 1]);
            }
        }
        i = i + 1;
    }
    proof {
        assert(only_separators_and_dots(rest));
    }
    true
}

/// Bytes that a `file:` URI carries as they are: ASCII letters and digits,
/// `-`, `.`, `_`, `~` and the separator `/`.
pub open spec fn is_unreserved(b: u8) -> bool {
    ||| (0x30 <= b && b <= 0x39)
    ||| (0x41 <= b && b <= 0x5A)
    ||| (0x61 <= b && b <= 0x7A)
    ||| b == 0x2D || b == 0x2E || b == 0x5F || b == 0x7E || b == 0x2F
}

/// An upper-case hexadecimal digit.
pub open spec fn hex_digit(d: int) -> char {
    if d < 10 {
        (d + 48) as char
    } else {
        (d + 55) as char
    }
}

/// One byte of a path in a URI: itself, or `%` and two hexadecimal digits.
pub open spec fn encoded_byte(b: u8) -> Seq<char> {
    if is_unreserved(b) {
        seq![b as char]
    } else {
        seq!['%', hex_digit(b as int / 16), hex_digit(b as int % 16)]
    }
}

/// The path bytes percent-encoded, one after the other.
pub open spec fn percent_encoded(p: Seq<u8>) -> Seq<char>
    decreases p.len(),
{
    if p.len() == 0 {
        Seq::empty()
    } else {
        encoded_byte(p[0]) + percent_encoded(p.drop_first())
    }
}

/// The `file:` URI of an absolute path.
pub open spec fn file_uri(p: Seq<u8>) -> Seq<char> {
    "file://"@ + percent_encoded(p)
}

/// The error for a relative chooser path.
pub open spec fn relative_path_error(p: Seq<u8>) -> Seq<char> {
    relative_path_error_for(utf8_lossy(p))
}

/// The error for a relative path shown as `shown`.
pub open spec fn relative_path_error_for(shown: Seq<char>) -> Seq<char> {
    "Chooser returned a relative path: "@ + shown
}

proof fn lemma_encoded_push(p: Seq<u8>, b: u8)
    ensures
        percent_encoded(p.push(b)) == percent_encoded(p) + encoded_byte(b),
    decreases p.len(),
{
    if p.len() == 0 {
        assert(p.push(b).drop_first() =~= Seq::<u8>::empty());
        assert(percent_encoded(Seq::<u8>::empty()) == Seq::<char>::empty());
        assert(percent_encoded(p.push(b)) =~= encoded_byte(b));
    } else {
        assert(p.push(b).drop_first() =~= p.drop_first().push(b));
        lemma_encoded_push(p.drop_first(), b);
        assert(percent_encoded(p.push(b)) =~= percent_encoded(p) + encoded_byte(b));
    }
}

/// The value of a hexadecimal digit of either case.
pub open spec fn hex_value(c: char) -> Option<int> {
    let v = c as int;
    if 48 <= v && v <= 57 {
        Some(v - 48)
    } else if 65 <= v && v <= 70 {
        Some(v - 55)
    } else if 97 <= v && v <= 102 {
        Some(v - 87)
    } else {
        None
    }
}

/// Percent-decoding: `%` and two hexadecimal digits stand for one byte,
/// any other ASCII character for itself; anything else is no encoding.
pub open spec fn percent_decoded(s: Seq<char>) -> Option<Seq<u8>>
    decreases s.len(),
{
    if s.len() == 0 {
        Some(Seq::empty())
    } else if s[0] == '%' {
        if s.len() >= 3 && hex_value(s[1]) is Some && hex_value(s[2]) is Some {
            match percent_decoded(s.skip(3)) {
                Some(rest) => Some(
                    seq![(16 * hex_value(s[1])->0 + hex_value(s[2])->0) as u8] + rest,
                ),
                None => None,
            }
        } else {
            None
        }
    } else if (s[0] as int) < 128 {
        match percent_decoded(s.drop_first()) {
            Some(rest) => Some(seq![s[0] as int as u8] + rest),
            None => None,
        }
    } else {
        None
    }
}

/// Percent-decoding the encoded path gives back every byte of it: no byte
/// is lost or merged, a literal `%` included.
pub proof fn lemma_percent_decoding_recovers_path(p: Seq<u8>)
    ensures
        percent_decoded(percent_encoded(p)) == Some(p),
    decreases p.len(),
{
    if p.len() > 0 {
        let b = p[0];
        let rest = p.drop_first();
        lemma_percent_decoding_recovers_path(rest);
        let e = encoded_byte(b);
        let s = e + percent_encoded(rest);
        assert(percent_encoded(p) == s);
        if is_unreserved(b) {
            assert(s[0] == b as char);
            assert(s.drop_first() =~= percent_encoded(rest));
            assert((b as char) as int == b as int);
            assert(seq![b] + rest =~= p);
        } else {
            let hi = b as int / 16;
            let lo = b as int % 16;
            assert(hex_value(hex_digit(hi)) == Some(hi));
            assert(hex_value(hex_digit(lo)) == Some(lo));
            assert(s.skip(3) =~= percent_encoded(rest));
            assert((16 * hi + lo) as u8 == b);
            assert(seq![b] + rest =~= p);
        }
    }
}

/// A path's URI is `file://` and then each byte of the path in turn: an
/// ASCII letter or digit, `-`, `.`, `_`, `~` or `/` as itself, and any other
/// byte as `%` and the two upper-case hexadecimal digits of its value.
pub proof fn lemma_file_uri_bytes(p: Seq<u8>, b: u8)
    ensures
        file_uri(Seq::empty()) == "file://"@,
        file_uri(p.push(b)) == file_uri(p) + if (0x30 <= b && b <= 0x39) || (0x41 <= b && b
            <= 0x5A) || (0x61 <= b && b <= 0x7A) || b == 0x2D || b == 0x2E || b == 0x5F || b
            == 0x7E || b == 0x2F {
            seq![b as char]
        } else {
            seq!['%', "0123456789ABCDEF"@[b as int / 16], "0123456789ABCDEF"@[b as int % 16]]
        },
{
    assert("file://"@ + Seq::<char>::empty() =~= "file://"@);
    lemma_encoded_push(p, b);
    assert(file_uri(p.push(b)) =~= file_uri(p) + encoded_byte(b));
    reveal_strlit("0123456789ABCDEF");
    let table = "0123456789ABCDEF"@;
    assert forall|d: int| 0 <= d < 16 implies hex_digit(d) == table[d] by {
        if d == 0 { assert(hex_digit(d) == '0'); }
        else if d == 1 { assert(hex_digit(d) == '1'); }
        else if d == 2 { assert(hex_digit(d) == '2'); }
        else if d == 3 { assert(hex_digit(d) == '3'); }
        else if d == 4 { assert(hex_digit(d) == '4'); }
        else if d == 5 { assert(hex_digit(d) == '5'); }
        else if d == 6 { assert(hex_digit(d) == '6'); }
        else if d == 7 { assert(hex_digit(d) == '7'); }
        else if d == 8 { assert(hex_digit(d) == '8'); }
        else if d == 9 { assert(hex_digit(d) == '9'); }
        else if d == 10 { assert(hex_digit(d) == 'A'); }
        else if d == 11 { assert(hex_digit(d) == 'B'); }
        else if d == 12 { assert(hex_digit(d) == 'C'); }
        else if d == 13 { assert(hex_digit(d) == 'D'); }
        else if d == 14 { assert(hex_digit(d) == 'E'); }
        else { assert(hex_digit(d) == 'F'); }
    }
    assert(0 <= b as int / 16 < 16);
    assert(0 <= b as int % 16 < 16);
}

/// No `?` and no `#` stands in a path's URI after `file://`: no path is read
/// back with a query or a fragment.
pub proof fn lemma_file_uri_has_no_query(p: Seq<u8>)
    ensures
        file_uri(p).len() >= 7,
        forall|i: int| 7 <= i < file_uri(p).len() ==> file_uri(p)[i] != '?' && file_uri(p)[i] != '#',
{
    reveal_strlit("file://");
    lemma_encoded_no_query(p);
    assert forall|i: int| 7 <= i < file_uri(p).len() implies file_uri(p)[i] != '?' && file_uri(p)[i]
        != '#' by {
        assert(file_uri(p)[i] == percent_encoded(p)[i - 7]);
    }
}

proof fn lemma_encoded_no_query(p: Seq<u8>)
    ensures
        forall|i: int|
            0 <= i < percent_encoded(p).len() ==> percent_encoded(p)[i] != '?' && percent_encoded(p)[i]
                != '#',
    decreases p.len(),
{
    if p.len() > 0 {
        lemma_encoded_no_query(p.drop_first());
        let e = encoded_byte(p[0]);
        let hi = p[0] as int / 16;
        let lo = p[0] as int % 16;
        assert(hex_digit(hi) != '?' && hex_digit(hi) != '#');
        assert(hex_digit(lo) != '?' && hex_digit(lo) != '#');
        assert(forall|i: int| 0 <= i < e.len() ==> e[i] != '?' && e[i] != '#');
        let s = percent_encoded(p);
        assert forall|i: int| 0 <= i < s.len() implies s[i] != '?' && s[i] != '#' by {
            if i >= e.len() {
                assert(s[i] == percent_encoded(p.drop_first())[i - e.len()]);
            } else {
                assert(s[i] == e[i]);
            }
        }
    }
}

fn hex_char(d: u8) -> (c: char)
    requires
        d < 16,
    ensures
        c == hex_digit(d as int),
{
    if d < 10 {
        (d + 48) as char
    } else {
        (d + 55) as char
    }
}

fn push_encoded_byte(out: &mut Vec<char>, b: u8)
    ensures
        final(out)@ == old(out)@ + encoded_byte(b),
{
    let unreserved = (0x30 <= b && b <= 0x39) || (0x41 <= b && b <= 0x5A) || (0x61 <= b && b
        <= 0x7A) || b == 0x2D || b == 0x2E || b == 0x5F || b == 0x7E || b == 0x2F;
    if unreserved {
        out.push(b as char);
    } else {
        out.push('%');
        out.push(hex_char(b / 16));
        out.push(hex_char(b % 16));
    }
    proof {
        assert(final(out)@ =~= old(out)@ + encoded_byte(b));
    }
}

/// The error for a relative chooser path.
pub fn relative_path_message(path: &[u8]) -> (e: String)
    ensures
        e@ == relative_path_error(path@),
{
    relative_path_error_text(lossy_string(path).as_str())
}

/// The error for a relative path, given the path as text.
pub fn relative_path_error_text(shown: &str) -> (e: String)
    ensures
        e@ == relative_path_error_for(shown@),
{
    let mut message = chars_of("Chooser returned a relative path: ");
    append_all(&mut message, &chars_of(shown));
    string_of(message.as_slice())
}

/// The `file:` URI of a path given as raw bytes: `file://` and the path,
/// with every byte but ASCII letters, digits, `-._~` and `/` written as `%`
/// and two upper-case hexadecimal digits. A relative path is refused.
pub fn path_to_file_uri(path: &[u8]) -> (r: Result<String, String>)
    ensures
        is_absolute(path@) ==> r == Ok::<String, String>(r->Ok_0) && r->Ok_0@ == file_uri(path@),
        !is_absolute(path@) ==> r == Err::<String, String>(r->Err_0) && r->Err_0@
            == relative_path_error(path@),
{
    if !path_is_absolute(path) {
        return Err(relative_path_message(path));
    }
    let mut out = chars_of("file://");
    let mut i: usize = 0;
    while i < path.len()
        invariant
            i <= path@.len(),
            out@ == "file://"@ + percent_encoded(path@.take(i as int)),
        decreases path@.len() - i,
    {
        push_encoded_byte(&mut out, path[i]);
        proof {
            lemma_encoded_push(path@.take(i as int), path@[i as int]);
            assert(path@.take(i + 1) =~= path@.take(i as int).push(path@[i as int]));
        }
        i = i + 1;
    }
    proof {
        assert(path@.take(path@.len() as int) =~= path@);
    }
    Ok(string_of(out.as_slice()))
}

} // verus!
