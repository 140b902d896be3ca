//! The portal-policy file: selecting this backend for the FileChooser
//! interface while keeping the rest of the policy as it was.

use vstd::prelude::*;
use vstd::seq_lib::lemma_flatten_concat;
use crate::paths::{bytes_between, copy_bytes, join, join_path, path_starts_with, starts_with_path};
use vstd::utf8::encode_utf8;
use crate::lines::{
    is_complete_line, is_line, is_line_sequence, lemma_flatten_last, lemma_flatten_split_lines,
    lemma_split_lines_flatten, lemma_split_lines_shape, line_ranges, ranges_text, ranges_valid,
    split_lines,
};
use crate::text::{
    byte_views, lemma_trim_push_newline, opt_bytes, texts, append_all, append_range, chars_of, is_space, range_equals, string_of, trim, trim_bounds, trim_end,
    trim_start,
};

verus! {

/// The policy key of the FileChooser interface.
pub open spec fn filechooser_key() -> Seq<char> {
    "org.freedesktop.impl.portal.FileChooser"@
}

/// The name under which this backend is installed.
pub open spec fn backend_name() -> Seq<char> {
    "termfilechooser"@
}

/// `org.freedesktop.impl.portal.FileChooser=termfilechooser`, without a newline.
pub open spec fn assignment_text() -> Seq<char> {
    filechooser_key() + "="@ + backend_name()
}

/// The preference line, newline included.
pub open spec fn preference_text() -> Seq<char> {
    assignment_text() + "\n"@
}

/// A line whose trimmed text is `[preferred]`.
pub open spec fn is_preferred_header(line: Seq<char>) -> bool {
    trim(line) == "[preferred]"@
}

/// A line whose trimmed text starts with `[` and ends with `]`.
pub open spec fn is_section_header(line: Seq<char>) -> bool {
    let t = trim(line);
    t.len() > 0 && t[0] == '[' && t[t.len() - 1] == ']'
}

/// A line whose text before its first `=` trims to the FileChooser key.
pub open spec fn is_preference_line(line: Seq<char>) -> bool {
    exists|i: int|
        0 <= i < line.len() && line[i] == '=' && (forall|j: int| 0 <= j < i ==> line[j] != '=')
            && trim(#[trigger] line.take(i)) == filechooser_key()
}

/// A line that is empty once trimmed.
pub open spec fn is_blank(line: Seq<char>) -> bool {
    trim(line).len() == 0
}

/// The first `[preferred]` header at or after line `i`.
pub open spec fn find_header(lines: Seq<Seq<char>>, i: int) -> Option<int>
    decreases lines.len() - i,
{
    if i < 0 || i >= lines.len() {
        None
    } else if is_preferred_header(lines[i]) {
        Some(i)
    } else {
        find_header(lines, i + 1)
    }
}

/// The first section header at or after line `i`, or the number of lines.
pub open spec fn section_end(lines: Seq<Seq<char>>, i: int) -> int
    decreases lines.len() - i,
{
    if i < 0 || i >= lines.len() {
        lines.len() as int
    } else if is_section_header(lines[i]) {
        i
    } else {
        section_end(lines, i + 1)
    }
}

/// The first FileChooser preference among lines `i..end`.
pub open spec fn find_preference(lines: Seq<Seq<char>>, i: int, end: int) -> Option<int>
    decreases end - i,
{
    if i < 0 || i >= end || end > lines.len() {
        None
    } else if is_preference_line(lines[i]) {
        Some(i)
    } else {
        find_preference(lines, i + 1, end)
    }
}

/// Where a new preference goes: before the blank lines that end the section.
pub open spec fn insertion_point(lines: Seq<Seq<char>>, low: int, i: int) -> int
    decreases i - low,
{
    if i > low && 0 < i <= lines.len() && is_blank(lines[i - 1]) {
        insertion_point(lines, low, i - 1)
    } else {
        i
    }
}

/// The line that replaces an existing FileChooser preference; it keeps the
/// old line's newline, or its lack of one.
pub open spec fn replacement_line(old: Seq<char>) -> Seq<char> {
    if old.len() > 0 && old[old.len() - 1] == '\n' {
        assignment_text() + "\n"@
    } else {
        assignment_text()
    }
}

/// What must come before new text so that it starts a line of its own: a
/// newline, when the text before it ends inside a line.
pub open spec fn line_break_after(text: Seq<char>) -> Seq<char> {
    if text.len() > 0 && text[text.len() - 1] != '\n' {
        "\n"@
    } else {
        Seq::empty()
    }
}

/// The policy text once this backend is selected for FileChooser.
pub open spec fn updated_policy(content: Seq<char>) -> Seq<char> {
    let lines = split_lines(content);
    match find_header(lines, 0) {
        None => content + line_break_after(content) + "[preferred]\n"@ + preference_text(),
        Some(start) => {
            let end = section_end(lines, start + 1);
            match find_preference(lines, start + 1, end) {
                Some(k) => lines.update(k, replacement_line(lines[k])).flatten(),
                None => {
                    let p = insertion_point(lines, start + 1, end);
                    let before = lines.subrange(0, p).flatten();
                    lines.insert(p, line_break_after(before) + preference_text()).flatten()
                },
            }
        },
    }
}

fn key_chars() -> (v: Vec<char>)
    ensures
        v@ == filechooser_key(),
{
    chars_of("org.freedesktop.impl.portal.FileChooser")
}

fn assignment_chars() -> (v: Vec<char>)
    ensures
        v@ == assignment_text(),
{
    let mut v = key_chars();
    append_all(&mut v, &chars_of("="));
    append_all(&mut v, &chars_of("termfilechooser"));
    v
}

fn preference_chars() -> (v: Vec<char>)
    ensures
        v@ == preference_text(),
{
    let mut v = assignment_chars();
    append_all(&mut v, &chars_of("\n"));
    v
}

/// `org.freedesktop.impl.portal.FileChooser=termfilechooser` and a newline.
pub fn preference_line() -> (s: String)
    ensures
        s@ == preference_text(),
{
    string_of(preference_chars().as_slice())
}

fn header_at(c: &Vec<char>, a: usize, b: usize) -> (r: bool)
    requires
        a <= b <= c@.len(),
    ensures
        r == is_preferred_header(c@.subrange(a as int, b as int)),
{
    let (x, y) = trim_bounds(c, a, b);
    range_equals(c, x, y, &chars_of("[preferred]"))
}

fn section_header_at(c: &Vec<char>, a: usize, b: usize) -> (r: bool)
    requires
        a <= b <= c@.len(),
    ensures
        r == is_section_header(c@.subrange(a as int, b as int)),
{
    let (x, y) = trim_bounds(c, a, b);
    x < y && c[x] == '[' && c[y - 1] == ']'
}

fn blank_at(c: &Vec<char>, a: usize, b: usize) -> (r: bool)
    requires
        a <= b <= c@.len(),
    ensures
        r == is_blank(c@.subrange(a as int, b as int)),
{
    let (x, y) = trim_bounds(c, a, b);
    x == y
}

fn preference_at(c: &Vec<char>, a: usize, b: usize) -> (r: bool)
    requires
        a <= b <= c@.len(),
    ensures
        r == is_preference_line(c@.subrange(a as int, b as int)),
{
    let ghost line = c@.subrange(a as int, b as int);
    let mut i = a;
    while i < b && c[i] != '='
        invariant
            a <= i <= b <= c@.len(),
            forall|j: int| a <= j < i ==> c@[j] != '=',
        decreases b - i,
    {
        i = i + 1;
    }
    if i == b {
        proof {
            assert forall|k: int|
                0 <= k < line.len() && line[k] == '=' && (forall|j: int|
                    0 <= j < k ==> line[j] != '=') implies trim(#[trigger] line.take(k))
                != filechooser_key() by {
                assert(line[k] == c@[a + k]);
            }
        }
        return false;
    }
    let (x, y) = trim_bounds(c, a, i);
    let r = range_equals(c, x, y, &key_chars());
    proof {
        let k = i - a;
        assert(line.take(k) =~= c@.subrange(a as int, i as int));
        assert(line[k] == '=');
        assert forall|j: int| 0 <= j < k implies line[j] != '=' by {
            assert(line[j] == c@[a + j]);
        }
        if !r {
            assert forall|m: int|
                0 <= m < line.len() && line[m] == '=' && (forall|j: int|
                    0 <= j < m ==> line[j] != '=') implies trim(#[trigger] line.take(m))
                != filechooser_key() by {
                if m < k {
                    assert(line[m] == c@[a + m]);
                }
                assert(!(k < m));
                assert(m == k);
            }
        }
    }
    r
}

/// Whether a policy line assigns the FileChooser key.
pub fn is_filechooser_preference(line: &str) -> (r: bool)
    ensures
        r == is_preference_line(line@),
{
    let c = chars_of(line);
    let r = preference_at(&c, 0, c.len());
    proof {
        assert(c@.subrange(0, c@.len() as int) =~= line@);
    }
    r
}

/// Appends lines `from..to` to `out`.
fn append_lines(
    out: &mut Vec<char>,
    c: &Vec<char>,
    rs: &Vec<(usize, usize)>,
    from: usize,
    to: usize,
)
    requires
        from <= to <= rs@.len(),
        ranges_valid(c@, rs@),
    ensures
        final(out)@ == old(out)@ + ranges_text(c@, rs@).subrange(from as int, to as int).flatten(),
{
    let ghost start = out@;
    let ghost text = ranges_text(c@, rs@);
    let mut j = from;
    proof {
        assert(text.subrange(from as int, from as int) =~= Seq::<Seq<char>>::empty());
        assert(out@ =~= start + text.subrange(from as int, from as int).flatten());
    }
    while j < to
        invariant
            from <= j <= to <= rs@.len(),
            ranges_valid(c@, rs@),
            text == ranges_text(c@, rs@),
            out@ == start + text.subrange(from as int, j as int).flatten(),
        decreases to - j,
    {
        let (a, b) = rs[j];
        proof {
            assert(rs@[j as int].0 <= rs@[j as int].1 <= c@.len());
        }
        append_range(out, c, a, b);
        proof {
            assert(text.subrange(from as int, j + 1) =~= text.subrange(from as int, j as int).push(
                text[j as int],
            ));
            text.subrange(from as int, j as int).lemma_flatten_push(text[j as int]);
        }
        j = j + 1;
    }
}

/// Where the first `:` of `s` stands, or its length.
pub open spec fn colon_pos(s: Seq<char>) -> nat
    decreases s.len(),
{
    if s.len() == 0 || s[0] == ':' {
        0
    } else {
        1 + colon_pos(s.drop_first())
    }
}

pub proof fn lemma_colon_pos_bound(s: Seq<char>)
    ensures
        colon_pos(s) <= s.len(),
    decreases s.len(),
{
    if s.len() > 0 && s[0] != ':' {
        lemma_colon_pos_bound(s.drop_first());
    }
}

proof fn lemma_colon_pos_at(s: Seq<char>, k: int)
    requires
        0 <= k <= s.len(),
        forall|j: int| 0 <= j < k ==> s[j] != ':',
        k == s.len() || s[k] == ':',
    ensures
        colon_pos(s) == k,
    decreases k,
{
    if k > 0 {
        lemma_colon_pos_at(s.drop_first(), k - 1);
    }
}

/// A character in ASCII lower case.
pub open spec fn ascii_lower(c: char) -> char {
    if 'A' <= c && c <= 'Z' {
        ((c as u32) + 32) as char
    } else {
        c
    }
}

/// The desktop names of an `XDG_CURRENT_DESKTOP` value: its `:`-separated
/// tokens, trimmed and in ASCII lower case, the empty ones left out.
pub open spec fn desktop_tokens(s: Seq<char>) -> Seq<Seq<char>>
    decreases s.len(),
{
    proof {
        lemma_colon_pos_bound(s);
    }
    let k = colon_pos(s) as int;
    let token = trim(s.take(k)).map_values(|c: char| ascii_lower(c));
    let rest = if k < s.len() {
        desktop_tokens(s.skip(k + 1))
    } else {
        Seq::empty()
    };
    if token.len() > 0 {
        seq![token] + rest
    } else {
        rest
    }
}

/// No desktop name holds an ASCII upper-case letter.
pub proof fn lemma_desktop_names_are_lowercase(value: Seq<char>)
    ensures
        forall|k: int, i: int|
            0 <= k < desktop_tokens(value).len() && 0 <= i < desktop_tokens(value)[k].len() ==> !(
            'A' <= #[trigger] desktop_tokens(value)[k][i] && desktop_tokens(value)[k][i] <= 'Z'),
    decreases value.len(),
{
    lemma_colon_pos_bound(value);
    let k = colon_pos(value) as int;
    let token = trim(value.take(k)).map_values(|c: char| ascii_lower(c));
    let rest = if k < value.len() {
        lemma_desktop_names_are_lowercase(value.skip(k + 1));
        desktop_tokens(value.skip(k + 1))
    } else {
        Seq::empty()
    };
    assert forall|i: int| 0 <= i < token.len() implies !('A' <= #[trigger] token[i] && token[i]
        <= 'Z') by {
        let c = trim(value.take(k))[i];
        assert(token[i] == ascii_lower(c));
    }
    let tokens = desktop_tokens(value);
    assert forall|m: int, i: int|
        0 <= m < tokens.len() && 0 <= i < tokens[m].len() implies !('A' <= #[trigger] tokens[m][i]
        && tokens[m][i] <= 'Z') by {
        if token.len() > 0 {
            if m == 0 {
                assert(tokens[m] == token);
            } else {
                assert(tokens[m] == rest[m - 1]);
            }
        } else {
            assert(tokens[m] == rest[m]);
        }
    }
}

/// A value without `:` that is not blank names one desktop: the value
/// trimmed, with each of the letters 'A' to 'Z' replaced by the one 32 code
/// points on ('a' to 'z') and every other character kept.
pub proof fn lemma_single_desktop_name(value: Seq<char>)
    requires
        forall|i: int| 0 <= i < value.len() ==> value[i] != ':',
        trim(value).len() > 0,
    ensures
        desktop_tokens(value).len() == 1,
        desktop_tokens(value)[0].len() == trim(value).len(),
        forall|i: int|
            0 <= i < trim(value).len() ==> #[trigger] desktop_tokens(value)[0][i] == if 'A'
                <= trim(value)[i] && trim(value)[i] <= 'Z' {
                ((trim(value)[i] as u32) + 32) as char
            } else {
                trim(value)[i]
            },
{
    lemma_colon_pos_at(value, value.len() as int);
    assert(value.take(value.len() as int) =~= value);
}

fn lowered_token(c: &Vec<char>, a: usize, b: usize) -> (t: Vec<char>)
    requires
        a <= b <= c@.len(),
    ensures
        t@ == trim(c@.subrange(a as int, b as int)).map_values(|c: char| ascii_lower(c)),
{
    let (x, y) = trim_bounds(c, a, b);
    let mut t: Vec<char> = Vec::new();
    let mut i = x;
    while i < y
        invariant
            x <= i <= y <= c@.len(),
            t@ == c@.subrange(x as int, i as int).map_values(|c: char| ascii_lower(c)),
        decreases y - i,
    {
        let ch = c[i];
        let lower = if 'A' <= ch && ch <= 'Z' {
            ((ch as u32) + 32) as u8 as char
        } else {
            ch
        };
        t.push(lower);
        proof {
            assert(t@ =~= c@.subrange(x as int, i + 1).map_values(|c: char| ascii_lower(c)));
        }
        i = i + 1;
    }
    t
}

/// The desktop names in an `XDG_CURRENT_DESKTOP` value, in order.
pub fn parse_desktops(value: &str) -> (r: Vec<String>)
    ensures
        texts(r@) == desktop_tokens(value@),
{
    let c = chars_of(value);
    let n = c.len();
    let mut out: Vec<String> = Vec::new();
    let mut start: usize = 0;
    let mut i: usize = 0;
    proof {
        assert(c@.skip(0) =~= c@);
        assert(texts(out@) + desktop_tokens(c@) =~= desktop_tokens(c@));
    }
    while i < n
        invariant
            n == c@.len(),
            c@ == value@,
            start <= i <= n,
            forall|j: int| start <= j < i ==> c@[j] != ':',
            texts(out@) + desktop_tokens(c@.skip(start as int)) == desktop_tokens(c@),
        decreases n - i,
    {
        if c[i] == ':' {
            let ghost rest = c@.skip(start as int);
            proof {
                lemma_colon_pos_at(rest, i - start);
                assert(rest.take(i - start) =~= c@.subrange(start as int, i as int));
                assert(rest.skip(i - start + 1) =~= c@.skip(i + 1));
            }
            let token = lowered_token(&c, start, i);
            if token.len() > 0 {
                let ghost prev = out@;
                out.push(string_of(token.as_slice()));
                proof {
                    assert(texts(out@) =~= texts(prev).push(token@));
                    assert(texts(out@) + desktop_tokens(c@.skip(i + 1)) =~= texts(
                        prev,
                    ) + desktop_tokens(rest));
                }
            }
            start = i + 1;
        }
        i = i + 1;
    }
    let ghost rest = c@.skip(start as int);
    proof {
        lemma_colon_pos_at(rest, n - start);
        assert(rest.take(n - start) =~= c@.subrange(start as int, n as int));
    }
    let token = lowered_token(&c, start, n);
    if token.len() > 0 {
        let ghost prev = out@;
        out.push(string_of(token.as_slice()));
        proof {
            assert(texts(out@) =~= texts(prev).push(token@));
            assert(texts(out@) =~= texts(prev) + desktop_tokens(rest));
        }
    } else {
        proof {
            assert(texts(out@) =~= texts(out@) + desktop_tokens(rest));
        }
    }
    out
}

/// The desktop names of an `XDG_CURRENT_DESKTOP` value, or the error for a
/// value that names none.
pub fn current_desktops(value: &str) -> (r: Result<Vec<String>, String>)
    ensures
        match r {
            Ok(names) => desktop_tokens(value@).len() > 0 && texts(names@) == desktop_tokens(value@),
            Err(e) => desktop_tokens(value@).len() == 0
                && e@ == "XDG_CURRENT_DESKTOP contains no desktop name"@,
        },
{
    let names = parse_desktops(value);
    if names.len() == 0 {
        return Err(string_of(chars_of("XDG_CURRENT_DESKTOP contains no desktop name").as_slice()));
    }
    Ok(names)
}

/// The name of the portal-policy directory under an XDG base directory.
pub open spec fn portal_dir_name() -> Seq<u8> {
    encode_utf8("xdg-desktop-portal"@)
}

/// The policy directory under each base directory.
pub open spec fn portal_dirs(bases: Seq<Seq<u8>>) -> Seq<Seq<u8>> {
    bases.map_values(|b: Seq<u8>| join(b, portal_dir_name()))
}

/// The policy directories in xdg-desktop-portal's order: the user's config
/// directory, the system config directories, `/etc`, the user's data
/// directory when it is known, the system data directories, `/usr/share`.
pub open spec fn searched_policy_directories(
    user_config: Seq<u8>,
    config_dirs: Seq<Seq<u8>>,
    user_data: Option<Seq<u8>>,
    data_dirs: Seq<Seq<u8>>,
) -> Seq<Seq<u8>> {
    let user_data_dirs = match user_data {
        Some(dir) => seq![join(dir, portal_dir_name())],
        None => Seq::empty(),
    };
    seq![join(user_config, portal_dir_name())] + portal_dirs(config_dirs) + seq![
        encode_utf8("/etc/xdg-desktop-portal"@),
    ] + user_data_dirs + portal_dirs(data_dirs) + seq![
        encode_utf8("/usr/share/xdg-desktop-portal"@),
    ]
}

/// The policy directories in xdg-desktop-portal's order, with the user's
/// data directory known.
pub open spec fn policy_directories(
    user_config: Seq<u8>,
    config_dirs: Seq<Seq<u8>>,
    user_data: Seq<u8>,
    data_dirs: Seq<Seq<u8>>,
) -> Seq<Seq<u8>> {
    searched_policy_directories(user_config, config_dirs, Some(user_data), data_dirs)
}

fn push_portal_dirs(out: &mut Vec<Vec<u8>>, bases: &Vec<Vec<u8>>)
    ensures
        byte_views(final(out)@) == byte_views(old(out)@) + portal_dirs(byte_views(bases@)),
{
    let ghost start = byte_views(out@);
    let name = "xdg-desktop-portal".as_bytes();
    let mut i: usize = 0;
    while i < bases.len()
        invariant
            i <= bases@.len(),
            name@ == portal_dir_name(),
            byte_views(out@) == start + portal_dirs(byte_views(bases@)).take(i as int),
        decreases bases@.len() - i,
    {
        let ghost prev = out@;
        out.push(join_path(bases[i].as_slice(), name));
        proof {
            let dirs = portal_dirs(byte_views(bases@));
            assert(byte_views(bases@)[i as int] == bases@[i as int]@);
            assert(byte_views(out@) =~= byte_views(prev).push(dirs[i as int]));
            assert(dirs.take(i + 1) =~= dirs.take(i as int).push(dirs[i as int]));
        }
        i = i + 1;
    }
    proof {
        let dirs = portal_dirs(byte_views(bases@));
        assert(dirs.take(bases@.len() as int) =~= dirs);
    }
}

fn searched_directories(
    user_config: &[u8],
    config_dirs: &Vec<Vec<u8>>,
    user_data: &Option<Vec<u8>>,
    data_dirs: &Vec<Vec<u8>>,
) -> (r: Vec<Vec<u8>>)
    ensures
        byte_views(r@) == searched_policy_directories(
            user_config@,
            byte_views(config_dirs@),
            opt_bytes(*user_data),
            byte_views(data_dirs@),
        ),
{
    let name = "xdg-desktop-portal".as_bytes();
    let mut out: Vec<Vec<u8>> = Vec::new();
    out.push(join_path(user_config, name));
    let ghost a = seq![join(user_config@, portal_dir_name())];
    proof {
        assert(byte_views(out@) =~= a);
    }
    push_portal_dirs(&mut out, config_dirs);
    let ghost b = a + portal_dirs(byte_views(config_dirs@));
    let etc = copy_bytes("/etc/xdg-desktop-portal".as_bytes());
    let ghost prev = out@;
    out.push(etc);
    let ghost c = b + seq![encode_utf8("/etc/xdg-desktop-portal"@)];
    proof {
        assert(byte_views(out@) =~= byte_views(prev).push(encode_utf8("/etc/xdg-desktop-portal"@)));
        assert(byte_views(out@) =~= c);
    }
    let ghost d = c + match opt_bytes(*user_data) {
        Some(dir) => seq![join(dir, portal_dir_name())],
        None => Seq::<Seq<u8>>::empty(),
    };
    match user_data {
        Some(dir) => {
            let ghost prev2 = out@;
            out.push(join_path(dir.as_slice(), name));
            proof {
                assert(byte_views(out@) =~= byte_views(prev2).push(join(dir@, portal_dir_name())));
                assert(byte_views(out@) =~= d);
            }
        },
        None => {
            proof {
                assert(byte_views(out@) =~= d);
            }
        },
    }
    push_portal_dirs(&mut out, data_dirs);
    let usr = copy_bytes("/usr/share/xdg-desktop-portal".as_bytes());
    let ghost prev3 = out@;
    out.push(usr);
    proof {
        assert(byte_views(out@) =~= byte_views(prev3).push(
            encode_utf8("/usr/share/xdg-desktop-portal"@),
        ));
        assert(byte_views(out@) =~= searched_policy_directories(
            user_config@,
            byte_views(config_dirs@),
            opt_bytes(*user_data),
            byte_views(data_dirs@),
        ));
    }
    out
}

/// The directories searched for a portal policy, highest priority first.
pub fn build_policy_directories(
    user_config: &[u8],
    config_dirs: &Vec<Vec<u8>>,
    user_data: &[u8],
    data_dirs: &Vec<Vec<u8>>,
) -> (r: Vec<Vec<u8>>)
    ensures
        byte_views(r@) == policy_directories(
            user_config@,
            byte_views(config_dirs@),
            user_data@,
            byte_views(data_dirs@),
        ),
{
    searched_directories(user_config, config_dirs, &Some(copy_bytes(user_data)), data_dirs)
}

/// Where the first `:` of a byte string stands, or its length.
pub open spec fn list_separator_pos(s: Seq<u8>) -> nat
    decreases s.len(),
{
    if s.len() == 0 || s[0] == 58u8 {
        0
    } else {
        1 + list_separator_pos(s.drop_first())
    }
}

pub proof fn lemma_list_separator_pos_bound(s: Seq<u8>)
    ensures
        list_separator_pos(s) <= s.len(),
    decreases s.len(),
{
    if s.len() > 0 && s[0] != 58u8 {
        lemma_list_separator_pos_bound(s.drop_first());
    }
}

proof fn lemma_list_separator_pos_at(s: Seq<u8>, k: int)
    requires
        0 <= k <= s.len(),
        forall|j: int| 0 <= j < k ==> s[j] != 58u8,
        k == s.len() || s[k] == 58u8,
    ensures
        list_separator_pos(s) == k,
    decreases k,
{
    if k > 0 {
        lemma_list_separator_pos_at(s.drop_first(), k - 1);
    }
}

/// The entries of a `:`-separated directory list, as
/// `std::env::split_paths` gives them on Unix: empty entries are kept, and
/// an empty list is one empty entry.
pub open spec fn directory_list(s: Seq<u8>) -> Seq<Seq<u8>>
    decreases s.len(),
{
    proof {
        lemma_list_separator_pos_bound(s);
    }
    let k = list_separator_pos(s) as int;
    if k < s.len() {
        seq![s.take(k)] + directory_list(s.skip(k + 1))
    } else {
        seq![s]
    }
}

/// Splits an `XDG_CONFIG_DIRS`- or `XDG_DATA_DIRS`-style list at each `:`.
pub fn split_directory_list(value: &[u8]) -> (r: Vec<Vec<u8>>)
    ensures
        byte_views(r@) == directory_list(value@),
{
    let n = value.len();
    let mut out: Vec<Vec<u8>> = Vec::new();
    let mut start: usize = 0;
    let mut i: usize = 0;
    proof {
        assert(value@.skip(0) =~= value@);
        assert(byte_views(out@) + directory_list(value@) =~= directory_list(value@));
    }
    while i < n
        invariant
            n == value@.len(),
            start <= i <= n,
            forall|j: int| start <= j < i ==> value@[j] != 58u8,
            byte_views(out@) + directory_list(value@.skip(start as int)) == directory_list(value@),
        decreases n - i,
    {
        if value[i] == 58u8 {
            let ghost rest = value@.skip(start as int);
            proof {
                lemma_list_separator_pos_at(rest, i - start);
                assert(rest.take(i - start) =~= value@.subrange(start as int, i as int));
                assert(rest.skip(i - start + 1) =~= value@.skip(i + 1));
            }
            let ghost prev = out@;
            out.push(bytes_between(value, start, i));
            proof {
                assert(byte_views(out@) =~= byte_views(prev).push(
                    value@.subrange(start as int, i as int),
                ));
                assert(byte_views(out@) + directory_list(value@.skip(i + 1)) =~= byte_views(prev)
                    + directory_list(rest));
            }
            start = i + 1;
        }
        i = i + 1;
    }
    let ghost rest = value@.skip(start as int);
    proof {
        lemma_list_separator_pos_at(rest, n - start);
        assert(rest =~= value@.subrange(start as int, n as int));
    }
    let ghost prev = out@;
    out.push(bytes_between(value, start, n));
    proof {
        assert(byte_views(out@) =~= byte_views(prev).push(rest));
        assert(byte_views(out@) =~= byte_views(prev) + directory_list(rest));
    }
    out
}

/// The policy file of a desktop: `DESKTOP-portals.conf`.
pub open spec fn desktop_policy_name(desktop: Seq<char>) -> Seq<u8> {
    encode_utf8(desktop) + encode_utf8("-portals.conf"@)
}

/// The policy files tried in one directory: one per desktop, in order, then
/// the generic `portals.conf`.
pub open spec fn directory_candidates(dir: Seq<u8>, desktops: Seq<Seq<char>>) -> Seq<Seq<u8>> {
    desktops.map_values(|d: Seq<char>| join(dir, desktop_policy_name(d))).push(
        join(dir, encode_utf8("portals.conf"@)),
    )
}

/// Every policy file tried, in order: directory by directory.
pub open spec fn policy_candidates(dirs: Seq<Seq<u8>>, desktops: Seq<Seq<char>>) -> Seq<Seq<u8>> {
    dirs.map_values(|d: Seq<u8>| directory_candidates(d, desktops)).flatten()
}

fn desktop_file_name(desktop: &String) -> (r: Vec<u8>)
    ensures
        r@ == desktop_policy_name(desktop@),
{
    let mut name = copy_bytes(desktop.as_str().as_bytes());
    crate::paths::push_all(&mut name, "-portals.conf".as_bytes());
    name
}

/// The policy files to try, highest priority first.
pub fn candidate_policies(directories: &Vec<Vec<u8>>, desktops: &Vec<String>) -> (r: Vec<Vec<u8>>)
    ensures
        byte_views(r@) == policy_candidates(byte_views(directories@), texts(desktops@)),
{
    let ghost dirs = byte_views(directories@);
    let ghost ds = texts(desktops@);
    let ghost per = dirs.map_values(|d: Seq<u8>| directory_candidates(d, ds));
    let mut out: Vec<Vec<u8>> = Vec::new();
    let mut i: usize = 0;
    proof {
        assert(per.take(0) =~= Seq::<Seq<Seq<u8>>>::empty());
        assert(byte_views(out@) =~= per.take(0).flatten());
    }
    while i < directories.len()
        invariant
            i <= directories@.len(),
            dirs == byte_views(directories@),
            ds == texts(desktops@),
            per == dirs.map_values(|d: Seq<u8>| directory_candidates(d, ds)),
            byte_views(out@) == per.take(i as int).flatten(),
        decreases directories@.len() - i,
    {
        let dir = directories[i].as_slice();
        let ghost base = byte_views(out@);
        let ghost cands = directory_candidates(dir@, ds);
        let mut j: usize = 0;
        while j < desktops.len()
            invariant
                j <= desktops@.len(),
                ds == texts(desktops@),
                cands == directory_candidates(dir@, ds),
                byte_views(out@) == base + cands.take(j as int),
            decreases desktops@.len() - j,
        {
            let ghost prev = out@;
            out.push(join_path(dir, desktop_file_name(&desktops[j]).as_slice()));
            proof {
                assert(ds[j as int] == desktops@[j as int]@);
                assert(cands[j as int] == join(dir@, desktop_policy_name(ds[j as int])));
                assert(byte_views(out@) =~= byte_views(prev).push(cands[j as int]));
                assert(cands.take(j + 1) =~= cands.take(j as int).push(cands[j as int]));
            }
            j = j + 1;
        }
        let ghost prev = out@;
        out.push(join_path(dir, "portals.conf".as_bytes()));
        proof {
            assert(byte_views(out@) =~= byte_views(prev).push(cands[ds.len() as int]));
            assert(cands.take(ds.len() as int).push(cands[ds.len() as int]) =~= cands);
            assert(byte_views(out@) =~= base + cands);
            assert(dirs[i as int] == dir@);
            assert(per[i as int] == cands);
            assert(per.take(i + 1) =~= per.take(i as int).push(cands));
            per.take(i as int).lemma_flatten_push(cands);
        }
        i = i + 1;
    }
    proof {
        assert(per.take(directories@.len() as int) =~= per);
    }
    out
}

/// `is_file` answered `answer` for some slice holding `path`.
pub open spec fn reported<F: Fn(&[u8]) -> bool>(is_file: F, path: Seq<u8>, answer: bool) -> bool {
    exists|p: &[u8]| p@ == path && call_ensures(is_file, (p,), answer)
}

/// The policy file to start from: the first candidate, in order, for which
/// `is_file` answers true. The answer for each candidate is whatever
/// `is_file` returned when asked.
pub fn find_policy_source<F: Fn(&[u8]) -> bool>(
    directories: &Vec<Vec<u8>>,
    desktops: &Vec<String>,
    is_file: F,
) -> (r: Option<Vec<u8>>)
    requires
        forall|p: &[u8]| call_requires(is_file, (p,)),
    ensures
        ({
            let cands = policy_candidates(byte_views(directories@), texts(desktops@));
            match r {
                Some(found) => exists|i: int|
                    0 <= i < cands.len() && found@ == cands[i] && reported(is_file, cands[i], true)
                        && forall|j: int| 0 <= j < i ==> reported(is_file, #[trigger] cands[j], false),
                None => forall|j: int|
                    0 <= j < cands.len() ==> reported(is_file, #[trigger] cands[j], false),
            }
        }),
{
    let candidates = candidate_policies(directories, desktops);
    let ghost cands = byte_views(candidates@);
    let mut i: usize = 0;
    while i < candidates.len()
        invariant
            i <= candidates@.len(),
            cands == byte_views(candidates@),
            cands == policy_candidates(byte_views(directories@), texts(desktops@)),
            forall|p: &[u8]| call_requires(is_file, (p,)),
            forall|j: int| 0 <= j < i ==> reported(is_file, #[trigger] cands[j], false),
        decreases candidates@.len() - i,
    {
        let candidate = candidates[i].as_slice();
        let found = is_file(candidate);
        proof {
            assert(cands[i as int] == candidate@);
        }
        if found {
            let r = copy_bytes(candidate);
            proof {
                assert(reported(is_file, cands[i as int], true));
            }
            return Some(r);
        }
        proof {
            assert(reported(is_file, cands[i as int], false));
        }
        i = i + 1;
    }
    None
}

/// Where the updated policy is written: a policy found under the user's
/// policy directory is edited in place; any other is copied there as the
/// first desktop's policy.
pub open spec fn policy_target(source: Seq<u8>, user_directory: Seq<u8>, desktop: Seq<char>) -> Seq<
    u8,
> {
    if path_starts_with(source, user_directory) {
        source
    } else {
        join(user_directory, desktop_policy_name(desktop))
    }
}

/// Which policy to read and where to write the update: the first existing
/// candidate and its target. There must be a desktop name and an existing
/// policy; no policy is made up from nothing.
pub fn plan_policy_update<F: Fn(&[u8]) -> bool>(
    user_directory: &[u8],
    directories: &Vec<Vec<u8>>,
    desktops: &Vec<String>,
    is_file: F,
) -> (r: Result<(Vec<u8>, Vec<u8>), String>)
    requires
        forall|p: &[u8]| call_requires(is_file, (p,)),
    ensures
        ({
            let cands = policy_candidates(byte_views(directories@), texts(desktops@));
            match r {
                Ok((source, target)) => desktops@.len() > 0 && (exists|i: int|
                    0 <= i < cands.len() && source@ == cands[i] && reported(is_file, cands[i], true)
                        && forall|j: int|
                        0 <= j < i ==> reported(is_file, #[trigger] cands[j], false)) && target@
                    == policy_target(source@, user_directory@, desktops@[0]@),
                Err(e) => if desktops@.len() == 0 {
                    e@ == "XDG_CURRENT_DESKTOP contains no desktop name"@
                } else {
                    e@ == "No existing portal policy found for desktop "@ + desktops@[0]@
                        && forall|j: int|
                        0 <= j < cands.len() ==> reported(is_file, #[trigger] cands[j], false)
                },
            }
        }),
{
    if desktops.len() == 0 {
        return Err(string_of(chars_of("XDG_CURRENT_DESKTOP contains no desktop name").as_slice()));
    }
    let source = match find_policy_source(directories, desktops, is_file) {
        Some(source) => source,
        None => {
            let mut message = chars_of("No existing portal policy found for desktop ");
            append_all(&mut message, &chars_of(desktops[0].as_str()));
            return Err(string_of(message.as_slice()));
        },
    };
    let target = if starts_with_path(source.as_slice(), user_directory) {
        copy_bytes(source.as_slice())
    } else {
        join_path(user_directory, desktop_file_name(&desktops[0]).as_slice())
    };
    Ok((source, target))
}

/// The directories searched: only the override directory
/// (`XDG_DESKTOP_PORTAL_DIR`) when there is one, else the XDG order, without
/// the user's data directory when that is unknown.
pub fn policy_search_directories(
    override_dir: Option<Vec<u8>>,
    user_config: &[u8],
    config_dirs: &Vec<Vec<u8>>,
    user_data: Option<Vec<u8>>,
    data_dirs: &Vec<Vec<u8>>,
) -> (r: Vec<Vec<u8>>)
    ensures
        byte_views(r@) == match opt_bytes(override_dir) {
            Some(dir) => seq![dir],
            None => searched_policy_directories(
                user_config@,
                byte_views(config_dirs@),
                opt_bytes(user_data),
                byte_views(data_dirs@),
            ),
        },
{
    match override_dir {
        Some(dir) => {
            let mut out: Vec<Vec<u8>> = Vec::new();
            out.push(dir);
            proof {
                assert(byte_views(out@) =~= seq![out@[0]@]);
            }
            out
        },
        None => searched_directories(user_config, config_dirs, &user_data, data_dirs),
    }
}

/// `lines` with line `k` replaced, flattened, is the text before it, the new
/// line, and the text after it.
proof fn lemma_flatten_update(lines: Seq<Seq<char>>, k: int, line: Seq<char>)
    requires
        0 <= k < lines.len(),
    ensures
        lines.update(k, line).flatten() == lines.subrange(0, k).flatten() + line + lines.subrange(
            k + 1,
            lines.len() as int,
        ).flatten(),
{
    let rest = lines.subrange(k + 1, lines.len() as int);
    assert(lines.update(k, line) =~= lines.subrange(0, k) + (seq![line] + rest));
    lemma_flatten_concat(lines.subrange(0, k), seq![line] + rest);
    lemma_flatten_concat(seq![line], rest);
    seq![line].lemma_flatten_one_element();
}

/// Inserting a line at `p` and flattening puts it between the text before
/// and after `p`.
proof fn lemma_flatten_insert(lines: Seq<Seq<char>>, p: int, line: Seq<char>)
    requires
        0 <= p <= lines.len(),
    ensures
        lines.insert(p, line).flatten() == lines.subrange(0, p).flatten() + line + lines.subrange(
            p,
            lines.len() as int,
        ).flatten(),
{
    let rest = lines.subrange(p, lines.len() as int);
    assert(lines.insert(p, line) =~= lines.subrange(0, p) + (seq![line] + rest));
    lemma_flatten_concat(lines.subrange(0, p), seq![line] + rest);
    lemma_flatten_concat(seq![line], rest);
    seq![line].lemma_flatten_one_element();
}

/// Selects this backend for FileChooser in a portal policy: an existing
/// FileChooser preference under `[preferred]` is rewritten, a missing one is
/// added at the end of that section, and a missing section is appended.
pub fn set_filechooser_backend(content: &str) -> (r: String)
    ensures
        r@ == updated_policy(content@),
{
    let c = chars_of(content);
    let rs = line_ranges(&c);
    let ghost lines = split_lines(c@);
    let n = rs.len();
    let mut out: Vec<char> = Vec::new();

    // The `[preferred]` header.
    let mut s: usize = 0;
    while s < n && !header_at(&c, rs[s].0, rs[s].1)
        invariant
            n == rs@.len() == lines.len(),
            ranges_valid(c@, rs@),
            lines == ranges_text(c@, rs@),
            s <= n,
            find_header(lines, 0) == find_header(lines, s as int),
        decreases n - s,
    {
        proof {
            assert(rs@[s as int].0 <= rs@[s as int].1 <= c@.len());
        }
        s = s + 1;
    }
    if s == n {
        append_all(&mut out, &c);
        if c.len() > 0 && c[c.len() - 1] != '\n' {
            append_all(&mut out, &chars_of("\n"));
        }
        append_all(&mut out, &chars_of("[preferred]\n"));
        append_all(&mut out, &preference_chars());
        proof {
            assert(find_header(lines, 0) == None::<int>);
        }
        return string_of(out.as_slice());
    }
    proof {
        assert(rs@[s as int].0 <= rs@[s as int].1 <= c@.len());
        assert(find_header(lines, 0) == Some(s as int));
    }

    // The end of its section.
    let mut e: usize = s + 1;
    while e < n && !section_header_at(&c, rs[e].0, rs[e].1)
        invariant
            n == rs@.len() == lines.len(),
            ranges_valid(c@, rs@),
            lines == ranges_text(c@, rs@),
            s < e <= n,
            section_end(lines, s + 1) == section_end(lines, e as int),
        decreases n - e,
    {
        proof {
            assert(rs@[e as int].0 <= rs@[e as int].1 <= c@.len());
        }
        e = e + 1;
    }
    proof {
        if e < n {
            assert(rs@[e as int].0 <= rs@[e as int].1 <= c@.len());
        }
        assert(section_end(lines, s + 1) == e);
    }

    // An existing FileChooser preference in the section.
    let mut k: usize = s + 1;
    while k < e && !preference_at(&c, rs[k].0, rs[k].1)
        invariant
            n == rs@.len() == lines.len(),
            ranges_valid(c@, rs@),
            lines == ranges_text(c@, rs@),
            s < k <= e <= n,
            find_preference(lines, s + 1, e as int) == find_preference(lines, k as int, e as int),
        decreases e - k,
    {
        proof {
            assert(rs@[k as int].0 <= rs@[k as int].1 <= c@.len());
        }
        k = k + 1;
    }
    if k < e {
        let (a, b) = rs[k];
        proof {
            assert(rs@[k as int].0 <= rs@[k as int].1 <= c@.len());
            assert(find_preference(lines, s + 1, e as int) == Some(k as int));
            assert(lines[k as int] == c@.subrange(a as int, b as int));
        }
        append_lines(&mut out, &c, &rs, 0, k);
        append_all(&mut out, &assignment_chars());
        if a < b && c[b - 1] == '\n' {
            append_all(&mut out, &chars_of("\n"));
        }
        append_lines(&mut out, &c, &rs, k + 1, n);
        proof {
            lemma_flatten_update(lines, k as int, replacement_line(lines[k as int]));
            assert(lines.subrange(0, k as int) =~= ranges_text(c@, rs@).subrange(0, k as int));
            assert(out@ =~= updated_policy(c@));
        }
        return string_of(out.as_slice());
    }
    proof {
        assert(find_preference(lines, s + 1, e as int) == None::<int>);
    }

    // No preference yet: insert one before the section's trailing blank lines.
    let mut p: usize = e;
    while p > s + 1 && blank_at(&c, rs[p - 1].0, rs[p - 1].1)
        invariant
            n == rs@.len() == lines.len(),
            ranges_valid(c@, rs@),
            lines == ranges_text(c@, rs@),
            s < p <= e <= n,
            insertion_point(lines, s + 1, e as int) == insertion_point(lines, s + 1, p as int),
        decreases p,
    {
        proof {
            assert(rs@[p - 1].0 <= rs@[p - 1].1 <= c@.len());
        }
        p = p - 1;
    }
    proof {
        if p > s + 1 {
            assert(rs@[p - 1].0 <= rs@[p - 1].1 <= c@.len());
        }
        assert(insertion_point(lines, s + 1, e as int) == p);
    }
    append_lines(&mut out, &c, &rs, 0, p);
    let ghost before = out@;
    if out.len() > 0 && out[out.len() - 1] != '\n' {
        append_all(&mut out, &chars_of("\n"));
    }
    proof {
        assert(out@ == before + line_break_after(before));
    }
    append_all(&mut out, &preference_chars());
    append_lines(&mut out, &c, &rs, p, n);
    proof {
        assert(before == lines.subrange(0, p as int).flatten());
        lemma_flatten_insert(lines, p as int, line_break_after(before) + preference_text());
        assert(out@ =~= updated_policy(c@));
    }
    string_of(out.as_slice())
}

/// What the update adds where it removes nothing: the preference line, after
/// a new `[preferred]` header when the policy has none, and after a newline
/// when the text before it ends inside a line.
pub open spec fn is_inserted_preference(before: Seq<char>, new: Seq<char>) -> bool {
    ||| new == line_break_after(before) + preference_text()
    ||| new == line_break_after(before) + "[preferred]\n"@ + preference_text()
}

/// Selecting the backend changes nothing but the FileChooser preference:
/// the policy text is split as `before + old + after` and comes out as
/// `before + new + after`, where either nothing was removed and `new` is an
/// added preference (with its `[preferred]` header when the policy had none)
/// that starts a line of its own, or `old` was the existing FileChooser preference line and `new` its
/// rewritten form.
pub proof fn lemma_update_keeps_other_text(content: Seq<char>)
    ensures
        exists|before: Seq<char>, old: Seq<char>, after: Seq<char>, new: Seq<char>|
            content == before + old + after && updated_policy(content) == before + new + after
                && ((old.len() == 0 && is_inserted_preference(before, new)) || (is_preference_line(old)
                && new == replacement_line(old))),
{
    let lines = split_lines(content);
    lemma_split_lines_flatten(content);
    let n = lines.len() as int;
    match find_header(lines, 0) {
        None => {
            let new = line_break_after(content) + "[preferred]\n"@ + preference_text();
            assert(content == content + Seq::<char>::empty() + Seq::<char>::empty());
            assert(updated_policy(content) =~= content + new + Seq::<char>::empty());
        },
        Some(start) => {
            lemma_find_header_range(lines, 0);
            let end = section_end(lines, start + 1);
            match find_preference(lines, start + 1, end) {
                Some(k) => {
                    lemma_find_preference_range(lines, start + 1, end);
                    lemma_flatten_update(lines, k, replacement_line(lines[k]));
                    lemma_flatten_update(lines, k, lines[k]);
                    assert(lines.update(k, lines[k]) =~= lines);
                    let before = lines.subrange(0, k).flatten();
                    let after = lines.subrange(k + 1, n).flatten();
                    assert(content == before + lines[k] + after);
                    assert(updated_policy(content) == before + replacement_line(lines[k]) + after);
                },
                None => {
                    let p = insertion_point(lines, start + 1, end);
                    lemma_insertion_point_range(lines, start + 1, end);
                    lemma_section_end_range(lines, start + 1);
                    let before = lines.subrange(0, p).flatten();
                    let new = line_break_after(before) + preference_text();
                    lemma_flatten_insert(lines, p, new);
                    lemma_flatten_concat(lines.subrange(0, p), lines.subrange(p, n));
                    assert(lines.subrange(0, p) + lines.subrange(p, n) =~= lines);
                    let after = lines.subrange(p, n).flatten();
                    assert(content == before + Seq::<char>::empty() + after);
                    assert(updated_policy(content) == before + new + after);
                },
            }
        },
    }
}

proof fn lemma_key_facts()
    ensures
        filechooser_key().len() == 39,
        filechooser_key()[0] == 'o',
        filechooser_key()[38] == 'r',
        forall|j: int| 0 <= j < 39 ==> filechooser_key()[j] != '=' && filechooser_key()[j] != '\n',
        trim(filechooser_key()) == filechooser_key(),
{
    reveal_strlit("org.freedesktop.impl.portal.FileChooser");
    let key = filechooser_key();
    assert(!is_space(key[0]));
    assert(trim_start(key) == key);
    assert(!is_space(key[38]));
    assert(trim_end(key) == key);
}

proof fn lemma_assignment_facts()
    ensures
        assignment_text().len() == 55,
        assignment_text()[0] == 'o',
        assignment_text()[39] == '=',
        assignment_text()[54] == 'r',
        forall|j: int| 0 <= j < 55 ==> assignment_text()[j] != '\n',
        assignment_text().take(39) == filechooser_key(),
{
    lemma_key_facts();
    reveal_strlit("=");
    reveal_strlit("termfilechooser");
    let a = assignment_text();
    assert(a.take(39) =~= filechooser_key());
    assert forall|j: int| 0 <= j < 55 implies a[j] != '\n' by {
        if j < 39 {
            assert(a[j] == filechooser_key()[j]);
        } else if j == 39 {
        } else {
            assert(a[j] == backend_name()[j - 40]);
        }
    }
}

/// The preference line is complete, assigns the FileChooser key, is no
/// header, and is its own replacement.
proof fn lemma_preference_line_facts()
    ensures
        is_complete_line(preference_text()),
        is_preference_line(preference_text()),
        !is_preferred_header(preference_text()),
        !is_section_header(preference_text()),
        replacement_line(preference_text()) == preference_text(),
{
    lemma_key_facts();
    lemma_assignment_facts();
    reveal_strlit("\n");
    reveal_strlit("[preferred]");
    let a = assignment_text();
    let p = preference_text();
    assert(p.len() == 56);
    assert(p[55] == '\n');
    assert forall|j: int| 0 <= j < 55 implies p[j] != '\n' by {
        assert(p[j] == a[j]);
    }
    assert(trim_start(p) == p) by {
        assert(!is_space(p[0]));
    }
    assert(p.drop_last() =~= a);
    assert(trim_end(a) == a) by {
        assert(!is_space(a[54]));
    }
    assert(trim_end(p) == trim_end(a));
    assert(trim(p) == a);
    assert(a.len() != "[preferred]"@.len());
    assert(p.take(39) =~= filechooser_key());
    assert(p[39] == '=');
    assert forall|j: int| 0 <= j < 39 implies p[j] != '=' by {
        assert(p[j] == filechooser_key()[j]);
    }
    assert(trim(p.take(39)) == filechooser_key());
}

/// The `[preferred]` header line is complete and is a header.
proof fn lemma_header_line_facts()
    ensures
        is_complete_line("[preferred]\n"@),
        is_preferred_header("[preferred]\n"@),
{
    reveal_strlit("[preferred]\n");
    reveal_strlit("[preferred]");
    let h = "[preferred]\n"@;
    assert(h.len() == 12);
    assert(trim_start(h) == h) by {
        assert(!is_space(h[0]));
    }
    assert(h.drop_last() =~= "[preferred]"@);
    assert(trim_end(h.drop_last()) == h.drop_last()) by {
        assert(!is_space(h.drop_last()[10]));
    }
    assert(trim(h) =~= "[preferred]"@);
}

/// `find_header` finds the first header.
proof fn lemma_find_header_first(lines: Seq<Seq<char>>, i: int, m: int)
    requires
        0 <= i <= m <= lines.len(),
        forall|j: int| i <= j < m ==> !is_preferred_header(#[trigger] lines[j]),
    ensures
        find_header(lines, i) == find_header(lines, m),
    decreases m - i,
{
    if i < m {
        lemma_find_header_first(lines, i + 1, m);
    }
}

/// `section_end` stops at the first header.
proof fn lemma_section_end_first(lines: Seq<Seq<char>>, i: int, m: int)
    requires
        0 <= i <= m <= lines.len(),
        forall|j: int| i <= j < m ==> !is_section_header(#[trigger] lines[j]),
    ensures
        section_end(lines, i) == section_end(lines, m),
    decreases m - i,
{
    if i < m {
        lemma_section_end_first(lines, i + 1, m);
    }
}

proof fn lemma_section_end_skips(lines: Seq<Seq<char>>, i: int)
    requires
        0 <= i <= lines.len(),
    ensures
        forall|j: int| i <= j < section_end(lines, i) ==> !is_section_header(#[trigger] lines[j]),
        section_end(lines, i) < lines.len() ==> is_section_header(lines[section_end(lines, i)]),
        i <= section_end(lines, i) <= lines.len(),
    decreases lines.len() - i,
{
    if i < lines.len() && !is_section_header(lines[i]) {
        lemma_section_end_skips(lines, i + 1);
    }
}

/// `find_preference` finds the first preference.
proof fn lemma_find_preference_first(lines: Seq<Seq<char>>, i: int, m: int, end: int)
    requires
        0 <= i <= m <= end <= lines.len(),
        forall|j: int| i <= j < m ==> !is_preference_line(#[trigger] lines[j]),
    ensures
        find_preference(lines, i, end) == find_preference(lines, m, end),
    decreases m - i,
{
    if i < m {
        lemma_find_preference_first(lines, i + 1, m, end);
    }
}

proof fn lemma_find_preference_skips(lines: Seq<Seq<char>>, i: int, end: int)
    requires
        0 <= i <= end <= lines.len(),
    ensures
        find_preference(lines, i, end) matches Some(k) ==> forall|j: int|
            i <= j < k ==> !is_preference_line(#[trigger] lines[j]),
        find_preference(lines, i, end) is None ==> forall|j: int|
            i <= j < end ==> !is_preference_line(#[trigger] lines[j]),
    decreases end - i,
{
    if i < end && !is_preference_line(lines[i]) {
        lemma_find_preference_skips(lines, i + 1, end);
    }
}

proof fn lemma_find_header_skips(lines: Seq<Seq<char>>, i: int)
    requires
        0 <= i <= lines.len(),
    ensures
        find_header(lines, i) matches Some(k) ==> forall|j: int|
            i <= j < k ==> !is_preferred_header(#[trigger] lines[j]),
        find_header(lines, i) is None ==> forall|j: int|
            i <= j < lines.len() ==> !is_preferred_header(#[trigger] lines[j]),
    decreases lines.len() - i,
{
    if i < lines.len() && !is_preferred_header(lines[i]) {
        lemma_find_header_skips(lines, i + 1);
    }
}

/// The assignment without its newline: a line of its own kind, unchanged by
/// its own replacement.
proof fn lemma_assignment_line_facts()
    ensures
        is_line(assignment_text()),
        is_preference_line(assignment_text()),
        !is_section_header(assignment_text()),
        replacement_line(assignment_text()) == assignment_text(),
{
    lemma_key_facts();
    lemma_assignment_facts();
    let a = assignment_text();
    assert(trim_start(a) == a) by {
        assert(!is_space(a[0]));
    }
    assert(trim_end(a) == a) by {
        assert(!is_space(a[54]));
    }
    assert forall|j: int| 0 <= j < 39 implies a[j] != '=' by {
        assert(a[j] == filechooser_key()[j]);
    }
    assert(trim(a.take(39)) == filechooser_key());
}

/// A trailing newline changes no line's kind.
proof fn lemma_kind_with_newline(l: Seq<char>)
    ensures
        is_preferred_header(l.push('\n')) == is_preferred_header(l),
        is_section_header(l.push('\n')) == is_section_header(l),
        is_blank(l.push('\n')) == is_blank(l),
        is_preference_line(l.push('\n')) == is_preference_line(l),
{
    lemma_trim_push_newline(l);
    let m = l.push('\n');
    if is_preference_line(l) {
        let i = choose|i: int|
            0 <= i < l.len() && l[i] == '=' && (forall|j: int| 0 <= j < i ==> l[j] != '=')
                && trim(#[trigger] l.take(i)) == filechooser_key();
        assert(m.take(i) =~= l.take(i));
        assert(forall|j: int| 0 <= j < i ==> m[j] == l[j]);
        assert(trim(m.take(i)) == filechooser_key());
    }
    if is_preference_line(m) {
        let i = choose|i: int|
            0 <= i < m.len() && m[i] == '=' && (forall|j: int| 0 <= j < i ==> m[j] != '=')
                && trim(#[trigger] m.take(i)) == filechooser_key();
        assert(i < l.len());
        assert(m.take(i) =~= l.take(i));
        assert(forall|j: int| 0 <= j < i ==> m[j] == l[j]);
        assert(trim(l.take(i)) == filechooser_key());
    }
}

/// Line `p - 1` ended with a newline where it lacked one: the text before
/// `p` gains the line break it lacked, the line is complete, and no line
/// changes kind.
proof fn lemma_break_line(lines: Seq<Seq<char>>, p: int) -> (lines1: Seq<Seq<char>>)
    requires
        is_line_sequence(lines),
        0 < p <= lines.len(),
    ensures
        lines1.len() == lines.len(),
        is_line_sequence(lines1),
        is_complete_line(lines1[p - 1]),
        lines1.subrange(0, p).flatten() == lines.subrange(0, p).flatten() + line_break_after(
            lines.subrange(0, p).flatten(),
        ),
        lines1.subrange(p, lines.len() as int) == lines.subrange(p, lines.len() as int),
        forall|j: int| 0 <= j < lines.len() && j != p - 1 ==> lines1[j] == lines[j],
        forall|j: int|
            0 <= j < lines.len() ==> (is_preferred_header(#[trigger] lines1[j])
                == is_preferred_header(lines[j]) && is_section_header(lines1[j])
                == is_section_header(lines[j]) && is_preference_line(lines1[j])
                == is_preference_line(lines[j])),
{
    let n = lines.len() as int;
    let last = lines[p - 1];
    let before = lines.subrange(0, p).flatten();
    assert(is_line(last));
    assert(lines.subrange(0, p).last() == last);
    lemma_flatten_last(lines.subrange(0, p));
    reveal_strlit("\n");
    if last.last() == '\n' {
        assert(before + line_break_after(before) =~= before);
        assert(lines.subrange(0, p) =~= lines.subrange(0, p));
        lines
    } else {
        assert(!is_complete_line(last));
        assert(p == n);
        let line = last.push('\n');
        let lines1 = lines.update(p - 1, line);
        lemma_kind_with_newline(last);
        assert(lines1.subrange(0, p) =~= lines.subrange(0, p - 1).push(line));
        assert(lines.subrange(0, p) =~= lines.subrange(0, p - 1).push(last));
        lines.subrange(0, p - 1).lemma_flatten_push(line);
        lines.subrange(0, p - 1).lemma_flatten_push(last);
        assert(line_break_after(before) =~= seq!['\n']);
        assert(lines1.subrange(0, p).flatten() =~= before + line_break_after(before));
        assert(lines1.subrange(p, n) =~= lines.subrange(p, n));
        assert(is_complete_line(line));
        assert forall|i: int| 0 <= i < lines1.len() implies is_line(#[trigger] lines1[i]) by {
            if i != p - 1 {
                assert(lines1[i] == lines[i]);
            }
        }
        assert forall|i: int| 0 <= i < lines1.len() - 1 implies is_complete_line(
            #[trigger] lines1[i],
        ) by {
            assert(lines1[i] == lines[i]);
        }
        lines1
    }
}

/// Selecting the backend twice is selecting it once.
pub proof fn lemma_update_idempotent(content: Seq<char>)
    ensures
        updated_policy(updated_policy(content)) == updated_policy(content),
{
    let lines = split_lines(content);
    match find_header(lines, 0) {
        None => lemma_idempotent_appended(content),
        Some(start) => {
            lemma_find_header_range(lines, 0);
            lemma_find_header_skips(lines, 0);
            let end = section_end(lines, start + 1);
            lemma_section_end_skips(lines, start + 1);
            match find_preference(lines, start + 1, end) {
                Some(k) => lemma_idempotent_replaced(content, start, end, k),
                None => lemma_idempotent_inserted(content, start, end),
            }
        },
    }
}

/// Idempotence where the policy had no `[preferred]` section.
#[verifier::spinoff_prover]
#[verifier::rlimit(40)]
proof fn lemma_idempotent_appended(content: Seq<char>)
    requires
        find_header(split_lines(content), 0) is None,
    ensures
        updated_policy(updated_policy(content)) == updated_policy(content),
{
    let lines = split_lines(content);
    let n = lines.len() as int;
    lemma_split_lines_shape(content);
    lemma_split_lines_flatten(content);
    lemma_preference_line_facts();
    lemma_header_line_facts();
    let pref = preference_text();
    assert(lines.subrange(0, n) =~= lines);
    let header = "[preferred]\n"@;
    lemma_find_header_skips(lines, 0);
    let lb = line_break_after(content);
    let lines1 = if n > 0 {
        lemma_break_line(lines, n)
    } else {
        lines
    };
    assert(lines1.flatten() == content + lb && lines1.len() == n && (forall|i: int|
        0 <= i < n ==> is_complete_line(#[trigger] lines1[i]))) by {
        if n > 0 {
            assert(lines1.subrange(0, n) =~= lines1);
            assert forall|i: int| 0 <= i < n implies is_complete_line(#[trigger] lines1[i]) by {
                if i < n - 1 {
                }
            }
        } else {
            assert(content =~= Seq::<char>::empty());
            assert(content + lb =~= Seq::<char>::empty());
        }
    }
    assert forall|j: int| 0 <= j < n implies !is_preferred_header(#[trigger] lines1[j]) by {
        if n > 0 {
            assert(!is_preferred_header(lines[j]));
        }
    }
    let lines2 = lines1 + seq![header, pref];
    lemma_flatten_concat(lines1, seq![header, pref]);
    assert(seq![header, pref].flatten() =~= header + pref) by {
        assert(seq![header, pref].drop_first() =~= seq![pref]);
        seq![pref].lemma_flatten_one_element();
    }
    let updated = updated_policy(content);
    assert(updated =~= lines2.flatten());
    assert forall|i: int| 0 <= i < lines2.len() implies is_complete_line(#[trigger] lines2[i]) by {
        if i < n {
            assert(lines2[i] == lines1[i]);
        }
    }
    assert(is_line_sequence(lines2));
    lemma_flatten_split_lines(lines2);
    assert forall|j: int| 0 <= j < n implies !is_preferred_header(#[trigger] lines2[j]) by {
        assert(lines2[j] == lines1[j]);
    }
    lemma_find_header_first(lines2, 0, n);
    assert(lines2[n] == header);
    assert(find_header(lines2, 0) == Some(n));
    assert(lines2[n + 1] == pref);
    assert(lines2.len() == n + 2);
    assert(section_end(lines2, n + 2) == n + 2);
    assert(section_end(lines2, n + 1) == n + 2);
    assert(find_preference(lines2, n + 1, n + 2) == Some(n + 1));
    assert(lines2.update(n + 1, replacement_line(lines2[n + 1])) =~= lines2);
}

/// Idempotence where the section held a FileChooser preference at `k`.
#[verifier::spinoff_prover]
#[verifier::rlimit(40)]
proof fn lemma_idempotent_replaced(content: Seq<char>, start: int, end: int, k: int)
    requires
        find_header(split_lines(content), 0) == Some(start),
        0 <= start < split_lines(content).len(),
        is_preferred_header(split_lines(content)[start]),
        forall|j: int| 0 <= j < start ==> !is_preferred_header(#[trigger] split_lines(content)[j]),
        end == section_end(split_lines(content), start + 1),
        start + 1 <= end <= split_lines(content).len(),
        forall|j: int| start + 1 <= j < end ==> !is_section_header(#[trigger] split_lines(content)[j]),
        end < split_lines(content).len() ==> is_section_header(split_lines(content)[end]),
        find_preference(split_lines(content), start + 1, end) == Some(k),
    ensures
        updated_policy(updated_policy(content)) == updated_policy(content),
{
    let lines = split_lines(content);
    let n = lines.len() as int;
    lemma_split_lines_shape(content);
    lemma_split_lines_flatten(content);
    lemma_preference_line_facts();
    lemma_header_line_facts();
    let pref = preference_text();
    assert(lines.subrange(0, n) =~= lines);
    lemma_assignment_line_facts();
    lemma_find_preference_range(lines, start + 1, end);
    lemma_find_preference_skips(lines, start + 1, end);
    let r = replacement_line(lines[k]);
    assert(r == pref || r == assignment_text());
    assert(k < n - 1 ==> r == pref) by {
        if k < n - 1 {
            assert(is_complete_line(lines[k]));
        }
    }
    let lines2 = lines.update(k, r);
    assert forall|i: int| 0 <= i < lines2.len() implies is_line(#[trigger] lines2[i]) by {
        if i != k {
            assert(lines2[i] == lines[i]);
        }
    }
    assert forall|i: int| 0 <= i < lines2.len() - 1 implies is_complete_line(
        #[trigger] lines2[i],
    ) by {
        if i != k {
            assert(lines2[i] == lines[i]);
        }
    }
    lemma_flatten_split_lines(lines2);
    assert forall|j: int| 0 <= j < start implies !is_preferred_header(#[trigger] lines2[j]) by {
        assert(lines2[j] == lines[j]);
    }
    lemma_find_header_first(lines2, 0, start);
    assert(find_header(lines2, 0) == Some(start));
    assert forall|j: int| start + 1 <= j < end implies !is_section_header(#[trigger] lines2[j]) by {
        if j != k {
            assert(lines2[j] == lines[j]);
        }
    }
    lemma_section_end_first(lines2, start + 1, end);
    if end < n {
        assert(lines2[end] == lines[end]);
    }
    assert(section_end(lines2, start + 1) == end);
    assert forall|j: int| start + 1 <= j < k implies !is_preference_line(#[trigger] lines2[j]) by {
        assert(lines2[j] == lines[j]);
    }
    lemma_find_preference_first(lines2, start + 1, k, end);
    assert(find_preference(lines2, start + 1, end) == Some(k));
    assert(lines2.update(k, replacement_line(lines2[k])) =~= lines2);
}

/// Idempotence where the section held no FileChooser preference.
/// Two lines that the update treats alike.
pub open spec fn same_kind(a: Seq<char>, b: Seq<char>) -> bool {
    &&& is_preferred_header(a) == is_preferred_header(b)
    &&& is_section_header(a) == is_section_header(b)
    &&& is_preference_line(a) == is_preference_line(b)
}

/// The lines of a policy once a preference was inserted at `p`: the old
/// lines, alike in kind, around the preference line.
proof fn lemma_inserted_lines(content: Seq<char>, start: int, end: int) -> (lines2: Seq<Seq<char>>)
    requires
        find_header(split_lines(content), 0) == Some(start),
        0 <= start < split_lines(content).len(),
        end == section_end(split_lines(content), start + 1),
        start + 1 <= end <= split_lines(content).len(),
        find_preference(split_lines(content), start + 1, end) is None,
    ensures
        ({
            let lines = split_lines(content);
            let n = lines.len() as int;
            let p = insertion_point(lines, start + 1, end);
            &&& start + 1 <= p <= end
            &&& lines2.len() == n + 1
            &&& lines2[p] == preference_text()
            &&& updated_policy(content) == lines2.flatten()
            &&& split_lines(lines2.flatten()) == lines2
            &&& forall|j: int| 0 <= j < p ==> same_kind(#[trigger] lines2[j], lines[j])
            &&& forall|j: int| p < j <= n ==> same_kind(#[trigger] lines2[j], lines[j - 1])
        }),
{
    let lines = split_lines(content);
    let n = lines.len() as int;
    lemma_split_lines_shape(content);
    lemma_split_lines_flatten(content);
    lemma_preference_line_facts();
    let pref = preference_text();
    let p = insertion_point(lines, start + 1, end);
    lemma_insertion_point_range(lines, start + 1, end);
    let before = lines.subrange(0, p).flatten();
    let lines1 = lemma_break_line(lines, p);
    lemma_flatten_insert(lines, p, line_break_after(before) + pref);
    lemma_flatten_insert(lines1, p, pref);
    let lines2 = lines1.insert(p, pref);
    assert(updated_policy(content) =~= lines2.flatten());
    assert forall|i: int| 0 <= i < lines2.len() implies is_line(#[trigger] lines2[i]) by {
        if i < p {
            assert(lines2[i] == lines1[i]);
        } else if i > p {
            assert(lines2[i] == lines1[i - 1]);
        }
    }
    assert forall|i: int| 0 <= i < lines2.len() - 1 implies is_complete_line(
        #[trigger] lines2[i],
    ) by {
        if i < p {
            assert(lines2[i] == lines1[i]);
        } else if i > p {
            assert(lines2[i] == lines1[i - 1]);
        }
    }
    lemma_flatten_split_lines(lines2);
    assert forall|j: int| 0 <= j < p implies same_kind(#[trigger] lines2[j], lines[j]) by {
        assert(lines2[j] == lines1[j]);
    }
    assert forall|j: int| p < j <= n implies same_kind(#[trigger] lines2[j], lines[j - 1]) by {
        assert(lines2[j] == lines1[j - 1]);
    }
    lines2
}

/// Idempotence where the section held no FileChooser preference.
proof fn lemma_idempotent_inserted(content: Seq<char>, start: int, end: int)
    requires
        find_header(split_lines(content), 0) == Some(start),
        0 <= start < split_lines(content).len(),
        is_preferred_header(split_lines(content)[start]),
        forall|j: int| 0 <= j < start ==> !is_preferred_header(#[trigger] split_lines(content)[j]),
        end == section_end(split_lines(content), start + 1),
        start + 1 <= end <= split_lines(content).len(),
        forall|j: int| start + 1 <= j < end ==> !is_section_header(#[trigger] split_lines(content)[j]),
        end < split_lines(content).len() ==> is_section_header(split_lines(content)[end]),
        find_preference(split_lines(content), start + 1, end) is None,
    ensures
        updated_policy(updated_policy(content)) == updated_policy(content),
{
    let lines = split_lines(content);
    let n = lines.len() as int;
    lemma_preference_line_facts();
    lemma_find_preference_skips(lines, start + 1, end);
    let p = insertion_point(lines, start + 1, end);
    let lines2 = lemma_inserted_lines(content, start, end);
    assert forall|j: int| 0 <= j < start implies !is_preferred_header(#[trigger] lines2[j]) by {
        assert(same_kind(lines2[j], lines[j]));
    }
    lemma_find_header_first(lines2, 0, start);
    assert(same_kind(lines2[start], lines[start]));
    assert(find_header(lines2, 0) == Some(start));
    assert forall|j: int| start + 1 <= j < end + 1 implies !is_section_header(#[trigger] lines2[j]) by {
        if j < p {
            assert(same_kind(lines2[j], lines[j]));
        } else if j > p {
            assert(same_kind(lines2[j], lines[j - 1]));
        }
    }
    lemma_section_end_first(lines2, start + 1, end + 1);
    if end < n {
        assert(same_kind(lines2[end + 1], lines[end]));
    }
    assert(section_end(lines2, start + 1) == end + 1);
    assert forall|j: int| start + 1 <= j < p implies !is_preference_line(#[trigger] lines2[j]) by {
        assert(same_kind(lines2[j], lines[j]));
    }
    lemma_find_preference_first(lines2, start + 1, p, end + 1);
    assert(find_preference(lines2, start + 1, end + 1) == Some(p));
    assert(lines2.update(p, replacement_line(lines2[p])) =~= lines2);
}

proof fn lemma_find_preference_range(lines: Seq<Seq<char>>, i: int, end: int)
    ensures
        find_preference(lines, i, end) matches Some(k) ==> i <= k < end && 0 <= k < lines.len()
            && is_preference_line(lines[k]),
    decreases end - i,
{
    if !(i < 0 || i >= end || end > lines.len()) && !is_preference_line(lines[i]) {
        lemma_find_preference_range(lines, i + 1, end);
    }
}

proof fn lemma_find_header_range(lines: Seq<Seq<char>>, i: int)
    ensures
        find_header(lines, i) matches Some(k) ==> i <= k < lines.len() && 0 <= k
            && is_preferred_header(lines[k]),
    decreases lines.len() - i,
{
    if !(i < 0 || i >= lines.len()) && !is_preferred_header(lines[i]) {
        lemma_find_header_range(lines, i + 1);
    }
}

proof fn lemma_section_end_range(lines: Seq<Seq<char>>, i: int)
    requires
        0 <= i,
    ensures
        i <= section_end(lines, i) <= lines.len() || (i > lines.len() && section_end(lines, i)
            == lines.len()),
    decreases lines.len() - i,
{
    if i < lines.len() && !is_section_header(lines[i]) {
        lemma_section_end_range(lines, i + 1);
    }
}

proof fn lemma_insertion_point_range(lines: Seq<Seq<char>>, low: int, i: int)
    ensures
        (low <= i ==> low <= insertion_point(lines, low, i) <= i),
        (i < low ==> insertion_point(lines, low, i) == i),
    decreases i - low,
{
    if i > low && 0 < i <= lines.len() && is_blank(lines[i - 1]) {
        lemma_insertion_point_range(lines, low, i - 1);
    }
}

} // verus!
