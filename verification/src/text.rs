//! Character-level helpers shared by the other modules.

use vstd::prelude::*;
use vstd::utf8::{decode_utf8, valid_utf8};

verus! {

/// Unicode `White_Space`, as `char::is_whitespace` defines it.
pub open spec fn is_space(c: char) -> bool {
    let v = c as u32;
    ||| (9 <= v && v <= 13)
    ||| v == 32
    ||| v == 0x85
    ||| v == 0xA0
    ||| v == 0x1680
    ||| (0x2000 <= v && v <= 0x200A)
    ||| v == 0x2028
    ||| v == 0x2029
    ||| v == 0x202F
    ||| v == 0x205F
    ||| v == 0x3000
}

/// The text without its leading white space.
pub open spec fn trim_start(s: Seq<char>) -> Seq<char>
    decreases s.len(),
{
    if s.len() > 0 && is_space(s[0]) {
        trim_start(s.drop_first())
    } else {
        s
    }
}

/// The text without its trailing white space.
pub open spec fn trim_end(s: Seq<char>) -> Seq<char>
    decreases s.len(),
{
    if s.len() > 0 && is_space(s.last()) {
        trim_end(s.drop_last())
    } else {
        s
    }
}

/// `str::trim`: the text without leading and trailing white space.
pub open spec fn trim(s: Seq<char>) -> Seq<char> {
    trim_end(trim_start(s))
}

proof fn lemma_trim_start_push_space(s: Seq<char>, c: char)
    requires
        is_space(c),
    ensures
        trim_start(s.push(c)) == if trim_start(s).len() > 0 {
            trim_start(s).push(c)
        } else {
            Seq::<char>::empty()
        },
    decreases s.len(),
{
    let t = s.push(c);
    if s.len() == 0 {
        assert(t[0] == c);
        assert(t.drop_first() =~= Seq::<char>::empty());
        assert(trim_start(t) == trim_start(t.drop_first()));
        assert(trim_start(s) == s);
    } else if is_space(s[0]) {
        assert(t[0] == s[0]);
        assert(t.drop_first() =~= s.drop_first().push(c));
        lemma_trim_start_push_space(s.drop_first(), c);
    } else {
        assert(t[0] == s[0]);
    }
}

/// A trailing newline is trimmed away with the other white space.
pub proof fn lemma_trim_push_newline(s: Seq<char>)
    ensures
        trim(s.push('\n')) == trim(s),
{
    assert(is_space('\n'));
    lemma_trim_start_push_space(s, '\n');
    let t = trim_start(s);
    if t.len() > 0 {
        assert(t.push('\n').drop_last() =~= t);
    } else {
        assert(t =~= Seq::<char>::empty());
    }
}

pub fn is_space_char(c: char) -> (b: bool)
    ensures
        b == is_space(c),
{
    let v = c as u32;
    (9 <= v && v <= 13) || v == 32 || v == 0x85 || v == 0xA0 || v == 0x1680 || (0x2000 <= v
        && v <= 0x200A) || v == 0x2028 || v == 0x2029 || v == 0x202F || v == 0x205F || v
        == 0x3000
}

/// The bounds of the trimmed part of `s[lo..hi]`.
pub fn trim_bounds(s: &Vec<char>, lo: usize, hi: usize) -> (r: (usize, usize))
    requires
        lo <= hi <= s@.len(),
    ensures
        lo <= r.0 <= r.1 <= hi,
        s@.subrange(r.0 as int, r.1 as int) == trim(s@.subrange(lo as int, hi as int)),
{
    let mut a = lo;
    while a < hi && is_space_char(s[a])
        invariant
            lo <= a <= hi <= s@.len(),
            trim_start(s@.subrange(lo as int, hi as int)) == trim_start(
                s@.subrange(a as int, hi as int),
            ),
        decreases hi - a,
    {
        assert(s@.subrange(a as int, hi as int).drop_first() =~= s@.subrange(a + 1, hi as int));
        a = a + 1;
    }
    assert(trim_start(s@.subrange(a as int, hi as int)) == s@.subrange(a as int, hi as int));
    let mut b = hi;
    while b > a && is_space_char(s[b - 1])
        invariant
            lo <= a <= b <= hi <= s@.len(),
            trim_end(s@.subrange(a as int, hi as int)) == trim_end(s@.subrange(a as int, b as int)),
        decreases b - a,
    {
        assert(s@.subrange(a as int, b as int).drop_last() =~= s@.subrange(a as int, b - 1));
        b = b - 1;
    }
    assert(trim_end(s@.subrange(a as int, b as int)) == s@.subrange(a as int, b as int));
    (a, b)
}

/// Whether `s[a..b]` equals `t`.
pub fn range_equals(s: &Vec<char>, a: usize, b: usize, t: &Vec<char>) -> (r: bool)
    requires
        a <= b <= s@.len(),
    ensures
        r == (s@.subrange(a as int, b as int) == t@),
{
    if b - a != t.len() {
        proof {
            assert(s@.subrange(a as int, b as int).len() != t@.len());
        }
        return false;
    }
    let mut i: usize = 0;
    while i < t.len()
        invariant
            a <= b <= s@.len(),
            b - a == t@.len(),
            i <= t@.len(),
            forall|j: int| 0 <= j < i ==> s@[a + j] == t@[j],
        decreases t@.len() - i,
    {
        if s[a + i] != t[i] {
            proof {
                assert(s@.subrange(a as int, b as int)[i as int] != t@[i as int]);
            }
            return false;
        }
        i = i + 1;
    }
    proof {
        assert(s@.subrange(a as int, b as int) =~= t@);
    }
    true
}

/// Appends `src[a..b]` to `out`.
pub fn append_range(out: &mut Vec<char>, src: &Vec<char>, a: usize, b: usize)
    requires
        a <= b <= src@.len(),
    ensures
        final(out)@ == old(out)@ + src@.subrange(a as int, b as int),
{
    let ghost start = out@;
    let mut i = a;
    while i < b
        invariant
            a <= i <= b <= src@.len(),
            out@ == start + src@.subrange(a as int, i as int),
        decreases b - i,
    {
        out.push(src[i]);
        proof {
            assert(start + src@.subrange(a as int, i + 1) =~= (start + src@.subrange(
                a as int,
                i as int,
            )).push(src@[i as int]));
        }
        i = i + 1;
    }
}

/// Appends all of `src` to `out`.
pub fn append_all(out: &mut Vec<char>, src: &Vec<char>)
    ensures
        final(out)@ == old(out)@ + src@,
{
    append_range(out, src, 0, src.len());
    proof {
        assert(src@.subrange(0, src@.len() as int) =~= src@);
    }
}

/// The texts of some strings.
pub open spec fn texts(v: Seq<String>) -> Seq<Seq<char>> {
    v.map_values(|s: String| s@)
}

/// The bytes of some byte vectors.
pub open spec fn byte_views(v: Seq<Vec<u8>>) -> Seq<Seq<u8>> {
    v.map_values(|b: Vec<u8>| b@)
}

/// The bytes of an optional byte vector.
pub open spec fn opt_bytes(o: Option<Vec<u8>>) -> Option<Seq<u8>> {
    match o {
        Some(v) => Some(v@),
        None => None,
    }
}

/// What `String::from_utf8_lossy` makes of some bytes.
pub uninterp spec fn utf8_lossy(bytes: Seq<u8>) -> Seq<char>;

/// `String::from_utf8_lossy`: bytes read as UTF-8, each invalid sequence
/// replaced by U+FFFD. Stated: valid UTF-8 is decoded as it stands, and
/// nonempty input gives nonempty text.
#[verifier::external_body]
pub(crate) fn lossy_string(bytes: &[u8]) -> (s: String)
    ensures
        s@ == utf8_lossy(bytes@),
        valid_utf8(bytes@) ==> s@ == decode_utf8(bytes@),
        bytes@.len() > 0 ==> s@.len() > 0,
{
    String::from_utf8_lossy(bytes).into_owned()
}

/// The characters of a string slice.
pub fn chars_of(s: &str) -> (v: Vec<char>)
    ensures
        v@ == s@,
{
    let mut v: Vec<char> = Vec::new();
    for c in it: s.chars()
        invariant
            v@ == it.seq().take(it.index() as int),
    {
        v.push(c);
        proof {
            assert(v@ =~= it.seq().take(it.index() + 1));
        }
    }
    v
}

/// The string made of the given characters.
#[verifier::external_body]
pub(crate) fn string_of(v: &[char]) -> (s: String)
    ensures
        s@ == v@,
{
    String::from_iter(v)
}

} // verus!
