//! What the chooser wrote: its output file read as selected paths, and the
//! checks those paths must pass.

use vstd::prelude::*;
use crate::paths::{
    is_absolute, path_is_absolute, path_to_file_uri, relative_path_error, relative_path_message,
};
use crate::text::{append_all, byte_views, chars_of, string_of, texts};

verus! {

/// Where the first newline of `s` stands, or its length.
pub open spec fn newline_pos(s: Seq<u8>) -> nat
    decreases s.len(),
{
    if s.len() == 0 || s[0] == 10u8 {
        0
    } else {
        1 + newline_pos(s.drop_first())
    }
}

pub proof fn lemma_newline_pos_bound(s: Seq<u8>)
    ensures
        newline_pos(s) <= s.len(),
    decreases s.len(),
{
    if s.len() > 0 && s[0] != 10u8 {
        lemma_newline_pos_bound(s.drop_first());
    }
}

proof fn lemma_newline_pos_at(s: Seq<u8>, k: int)
    requires
        0 <= k <= s.len(),
        forall|j: int| 0 <= j < k ==> s[j] != 10u8,
        k == s.len() || s[k] == 10u8,
    ensures
        newline_pos(s) == k,
    decreases k,
{
    if k > 0 {
        lemma_newline_pos_at(s.drop_first(), k - 1);
    }
}

/// A line without the carriage return that ends it, if any.
pub open spec fn strip_cr(p: Seq<u8>) -> Seq<u8> {
    if p.len() > 0 && p[p.len() - 1] == 13u8 {
        p.drop_last()
    } else {
        p
    }
}

/// The selected paths in the chooser's output: its lines, each without a
/// trailing carriage return, the empty ones left out.
pub open spec fn selections_of(content: Seq<u8>) -> Seq<Seq<u8>>
    decreases content.len(),
{
    proof {
        lemma_newline_pos_bound(content);
    }
    let k = newline_pos(content) as int;
    let piece = strip_cr(content.take(k));
    let rest = if k < content.len() {
        selections_of(content.skip(k + 1))
    } else {
        Seq::empty()
    };
    if piece.len() > 0 {
        seq![piece] + rest
    } else {
        rest
    }
}

proof fn lemma_newline_pos_props(s: Seq<u8>)
    ensures
        newline_pos(s) <= s.len(),
        forall|j: int| 0 <= j < newline_pos(s) ==> s[j] != 10u8,
    decreases s.len(),
{
    if s.len() > 0 && s[0] != 10u8 {
        lemma_newline_pos_props(s.drop_first());
        assert forall|j: int| 0 <= j < newline_pos(s) implies s[j] != 10u8 by {
            if j > 0 {
                assert(s[j] == s.drop_first()[j - 1]);
            }
        }
    }
}

/// Every selection is a nonempty part of a single line of the output: it
/// holds no newline.
pub proof fn lemma_selections_are_nonempty_lines(content: Seq<u8>)
    ensures
        forall|i: int|
            0 <= i < selections_of(content).len() ==> {
                let p = #[trigger] selections_of(content)[i];
                &&& p.len() > 0
                &&& forall|j: int| 0 <= j < p.len() ==> p[j] != 10u8
            },
    decreases content.len(),
{
    lemma_newline_pos_props(content);
    let k = newline_pos(content) as int;
    let piece = strip_cr(content.take(k));
    let sels = selections_of(content);
    if k < content.len() {
        lemma_selections_are_nonempty_lines(content.skip(k + 1));
    }
    let rest = if k < content.len() {
        selections_of(content.skip(k + 1))
    } else {
        Seq::empty()
    };
    assert forall|i: int| 0 <= i < sels.len() implies {
        let p = #[trigger] sels[i];
        &&& p.len() > 0
        &&& forall|j: int| 0 <= j < p.len() ==> p[j] != 10u8
    } by {
        if piece.len() > 0 {
            if i == 0 {
                assert(sels[0] == piece);
                assert forall|j: int| 0 <= j < piece.len() implies piece[j] != 10u8 by {
                    assert(piece[j] == content[j]);
                }
            } else {
                assert(sels[i] == rest[i - 1]);
            }
        } else {
            assert(sels[i] == rest[i]);
        }
    }
}

fn piece_of(content: &[u8], a: usize, b: usize) -> (p: Vec<u8>)
    requires
        a <= b <= content@.len(),
    ensures
        p@ == strip_cr(content@.subrange(a as int, b as int)),
{
    let end = if b > a && content[b - 1] == 13 {
        b - 1
    } else {
        b
    };
    let mut p: Vec<u8> = Vec::new();
    let mut i = a;
    while i < end
        invariant
            a <= i <= end <= b <= content@.len(),
            p@ == content@.subrange(a as int, i as int),
        decreases end - i,
    {
        p.push(content[i]);
        proof {
            assert(p@ =~= content@.subrange(a as int, i + 1));
        }
        i = i + 1;
    }
    proof {
        assert(p@ =~= strip_cr(content@.subrange(a as int, b as int)));
    }
    p
}

/// The paths the chooser wrote, one per nonempty line; a carriage return
/// before a newline is dropped. Empty output selects nothing.
pub fn read_selections(content: &[u8]) -> (r: Vec<Vec<u8>>)
    ensures
        byte_views(r@) == selections_of(content@),
{
    let n = content.len();
    let mut out: Vec<Vec<u8>> = Vec::new();
    let mut start: usize = 0;
    let mut i: usize = 0;
    proof {
        assert(content@.skip(0) =~= content@);
        assert(byte_views(out@) + selections_of(content@) =~= selections_of(content@));
    }
    while i < n
        invariant
            n == content@.len(),
            start <= i <= n,
            forall|j: int| start <= j < i ==> content@[j] != 10u8,
            byte_views(out@) + selections_of(content@.skip(start as int)) == selections_of(content@),
        decreases n - i,
    {
        if content[i] == 10 {
            let ghost rest = content@.skip(start as int);
            proof {
                lemma_newline_pos_at(rest, i - start);
                assert(rest.take(i - start) =~= content@.subrange(start as int, i as int));
                assert(rest.skip(i - start + 1) =~= content@.skip(i + 1));
            }
            let piece = piece_of(content, start, i);
            if piece.len() > 0 {
                let ghost prev = out@;
                out.push(piece);
                proof {
                    assert(byte_views(out@) =~= byte_views(prev).push(out@.last()@));
                    assert(byte_views(out@) + selections_of(content@.skip(i + 1)) =~= byte_views(
                        prev,
                    ) + selections_of(rest));
                }
            }
            start = i + 1;
        }
        i = i + 1;
    }
    let ghost rest = content@.skip(start as int);
    proof {
        lemma_newline_pos_at(rest, n - start);
        assert(rest.take(n - start) =~= content@.subrange(start as int, n as int));
    }
    let piece = piece_of(content, start, n);
    if piece.len() > 0 {
        let ghost prev = out@;
        out.push(piece);
        proof {
            assert(byte_views(out@) =~= byte_views(prev).push(out@.last()@));
            assert(byte_views(out@) =~= byte_views(prev) + selections_of(rest));
        }
    } else {
        proof {
            assert(byte_views(out@) =~= byte_views(out@) + selections_of(rest));
        }
    }
    out
}

/// The decimal digits of a number.
pub open spec fn decimal(n: nat) -> Seq<char>
    decreases n,
{
    if n < 10 {
        seq![(n + 48) as char]
    } else {
        decimal(n / 10) + seq![((n % 10) + 48) as char]
    }
}

/// The decimal text of a number.
pub fn decimal_text(n: usize) -> (v: Vec<char>)
    ensures
        v@ == decimal(n as nat),
    decreases n,
{
    if n < 10 {
        let mut v: Vec<char> = Vec::new();
        v.push(((n as u8) + 48) as char);
        proof {
            assert(v@ =~= decimal(n as nat));
        }
        v
    } else {
        let mut v = decimal_text(n / 10);
        v.push((((n % 10) as u8) + 48) as char);
        proof {
            assert(v@ =~= decimal(n as nat));
        }
        v
    }
}

/// The first relative path at or after index `i`.
pub open spec fn first_relative(sels: Seq<Seq<u8>>, i: int) -> Option<int>
    decreases sels.len() - i,
{
    if i < 0 || i >= sels.len() {
        None
    } else if !is_absolute(sels[i]) {
        Some(i)
    } else {
        first_relative(sels, i + 1)
    }
}

/// What is wrong with the chooser's selection, if anything: nothing
/// selected, more than one path where one was asked for, or a relative path.
pub open spec fn selection_error(sels: Seq<Seq<u8>>, multiple: bool) -> Option<Seq<char>> {
    if sels.len() == 0 {
        Some("No files selected"@)
    } else if !multiple && sels.len() != 1 {
        Some("Chooser returned "@ + decimal(sels.len()) + " paths for a single-selection request"@)
    } else {
        match first_relative(sels, 0) {
            Some(i) => Some(relative_path_error(sels[i])),
            None => None,
        }
    }
}

/// Checks the chooser's selection: at least one path, exactly one unless
/// several were asked for, and each of them absolute.
pub fn validate_selections(selections: &Vec<Vec<u8>>, multiple: bool) -> (r: Result<(), String>)
    ensures
        match r {
            Ok(()) => selection_error(byte_views(selections@), multiple) is None,
            Err(e) => selection_error(byte_views(selections@), multiple) == Some(e@),
        },
{
    let ghost sels = byte_views(selections@);
    let n = selections.len();
    if n == 0 {
        return Err(string_of(chars_of("No files selected").as_slice()));
    }
    if !multiple && n != 1 {
        let mut message = chars_of("Chooser returned ");
        append_all(&mut message, &decimal_text(n));
        append_all(&mut message, &chars_of(" paths for a single-selection request"));
        return Err(string_of(message.as_slice()));
    }
    let mut i: usize = 0;
    while i < n
        invariant
            n == selections@.len(),
            n >= 1,
            multiple || n == 1,
            sels == byte_views(selections@),
            i <= n,
            first_relative(sels, 0) == first_relative(sels, i as int),
        decreases n - i,
    {
        if !path_is_absolute(selections[i].as_slice()) {
            return Err(relative_path_message(selections[i].as_slice()));
        }
        i = i + 1;
    }
    Ok(())
}

/// The `file:` URIs of the selected paths, or the error of the first
/// relative one.
pub open spec fn uris_of(paths: Seq<Seq<u8>>) -> Result<Seq<Seq<char>>, Seq<char>>
    decreases paths.len(),
{
    if paths.len() == 0 {
        Ok(Seq::empty())
    } else {
        match uris_of(paths.drop_last()) {
            Err(e) => Err(e),
            Ok(uris) => if is_absolute(paths.last()) {
                Ok(uris.push(crate::paths::file_uri(paths.last())))
            } else {
                Err(relative_path_error(paths.last()))
            },
        }
    }
}

/// Each selected path as a `file:` URI; the first relative path is an error.
pub fn selections_to_uris(paths: &Vec<Vec<u8>>) -> (r: Result<Vec<String>, String>)
    ensures
        match r {
            Ok(uris) => uris_of(byte_views(paths@)) == Ok::<Seq<Seq<char>>, Seq<char>>(
                texts(uris@),
            ),
            Err(e) => uris_of(byte_views(paths@)) == Err::<Seq<Seq<char>>, Seq<char>>(e@),
        },
{
    let ghost ps = byte_views(paths@);
    let mut uris: Vec<String> = Vec::new();
    let mut i: usize = 0;
    proof {
        assert(ps.take(0) =~= Seq::<Seq<u8>>::empty());
        assert(texts(uris@) =~= Seq::<Seq<char>>::empty());
    }
    while i < paths.len()
        invariant
            i <= paths@.len(),
            ps == byte_views(paths@),
            uris_of(ps.take(i as int)) == Ok::<Seq<Seq<char>>, Seq<char>>(texts(uris@)),
        decreases paths@.len() - i,
    {
        proof {
            assert(ps.take(i + 1).drop_last() =~= ps.take(i as int));
            assert(ps.take(i + 1).last() == paths@[i as int]@);
        }
        match path_to_file_uri(paths[i].as_slice()) {
            Err(e) => {
                proof {
                    lemma_uris_of_error(ps, i as int);
                }
                return Err(e);
            },
            Ok(uri) => {
                let ghost prev = uris@;
                uris.push(uri);
                proof {
                    assert(texts(uris@) =~= texts(prev).push(uris@.last()@));
                }
            },
        }
        i = i + 1;
    }
    proof {
        assert(ps.take(paths@.len() as int) =~= ps);
    }
    Ok(uris)
}

/// The error of the first relative path is the error of the whole list.
proof fn lemma_uris_of_error(ps: Seq<Seq<u8>>, i: int)
    requires
        0 <= i < ps.len(),
        uris_of(ps.take(i)) is Ok,
        !is_absolute(ps[i]),
    ensures
        uris_of(ps) == Err::<Seq<Seq<char>>, Seq<char>>(relative_path_error(ps[i])),
    decreases ps.len(),
{
    if i < ps.len() - 1 {
        assert(ps.drop_last().take(i) =~= ps.take(i));
        lemma_uris_of_error(ps.drop_last(), i);
    } else {
        assert(ps.drop_last() =~= ps.take(i));
    }
}

} // verus!
