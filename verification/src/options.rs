//! Portal request options: a string-keyed table of the D-Bus values that the
//! backend reads, and the decoding of boolean and byte-string options.

use vstd::prelude::*;
use crate::text::{byte_views, opt_bytes};

verus! {

/// An option value, as far as the backend reads it.
#[derive(Debug, Clone)]
pub enum OptionValue {
    /// A D-Bus boolean (`b`).
    Bool(bool),
    /// A D-Bus byte array (`ay`).
    Bytes(Vec<u8>),
    /// A D-Bus array of byte arrays (`aay`).
    ByteArrays(Vec<Vec<u8>>),
    /// An empty D-Bus array, of any element type: it reads as an empty byte
    /// string and as an empty list alike.
    EmptyArray,
    /// Any other value.
    Other,
}

/// The options of one portal request.
pub struct PortalOptions {
    entries: Vec<(String, OptionValue)>,
}

/// The value of the first entry under `key`.
pub open spec fn lookup(entries: Seq<(String, OptionValue)>, key: Seq<char>) -> Option<OptionValue>
    decreases entries.len(),
{
    if entries.len() == 0 {
        None
    } else if entries[0].0@ == key {
        Some(entries[0].1)
    } else {
        lookup(entries.drop_first(), key)
    }
}

proof fn lemma_lookup_index(entries: Seq<(String, OptionValue)>, key: Seq<char>, i: int)
    requires
        0 <= i <= entries.len(),
        forall|j: int| 0 <= j < i ==> (#[trigger] entries[j]).0@ != key,
    ensures
        lookup(entries, key) == lookup(entries.skip(i), key),
    decreases i,
{
    if i == 0 {
        assert(entries.skip(0) =~= entries);
    } else {
        assert(entries.drop_first().skip(i - 1) =~= entries.skip(i));
        assert forall|j: int| 0 <= j < i - 1 implies (#[trigger] entries.drop_first()[j]).0@ != key by {
            assert(entries.drop_first()[j] == entries[j + 1]);
        }
        lemma_lookup_index(entries.drop_first(), key, i - 1);
    }
}

proof fn lemma_lookup_update(
    entries: Seq<(String, OptionValue)>,
    i: int,
    entry: (String, OptionValue),
    key: Seq<char>,
)
    requires
        0 <= i < entries.len(),
        entries[i].0@ == entry.0@,
        key != entry.0@,
    ensures
        lookup(entries.update(i, entry), key) == lookup(entries, key),
    decreases i,
{
    if i > 0 {
        assert(entries.update(i, entry).drop_first() =~= entries.drop_first().update(i - 1, entry));
        lemma_lookup_update(entries.drop_first(), i - 1, entry, key);
    } else {
        assert(entries.update(0, entry).drop_first() =~= entries.drop_first());
    }
}

proof fn lemma_lookup_push(entries: Seq<(String, OptionValue)>, entry: (String, OptionValue), key: Seq<char>)
    requires
        forall|j: int| 0 <= j < entries.len() ==> (#[trigger] entries[j]).0@ != entry.0@,
    ensures
        key == entry.0@ ==> lookup(entries.push(entry), key) == Some(entry.1),
        key != entry.0@ ==> lookup(entries.push(entry), key) == lookup(entries, key),
    decreases entries.len(),
{
    if entries.len() > 0 {
        assert(entries.push(entry).drop_first() =~= entries.drop_first().push(entry));
        assert forall|j: int| 0 <= j < entries.drop_first().len() implies (
        #[trigger] entries.drop_first()[j]).0@ != entry.0@ by {
            assert(entries.drop_first()[j] == entries[j + 1]);
        }
        lemma_lookup_push(entries.drop_first(), entry, key);
    } else {
        assert(entries.push(entry).drop_first() =~= Seq::<(String, OptionValue)>::empty());
        assert(lookup(Seq::<(String, OptionValue)>::empty(), key) is None);
    }
}

impl PortalOptions {
    /// The value under `key`, if any.
    pub closed spec fn get(self, key: Seq<char>) -> Option<OptionValue> {
        lookup(self.entries@, key)
    }

    /// No options.
    pub fn new() -> (o: Self)
        ensures
            forall|key: Seq<char>| #[trigger] o.get(key) is None,
    {
        PortalOptions { entries: Vec::new() }
    }

    /// The value under `key`, if any.
    pub fn value_of(&self, key: &str) -> (r: Option<&OptionValue>)
        ensures
            r is None <==> self.get(key@) is None,
            r is Some ==> self.get(key@) == Some(*r->0),
    {
        let wanted = key.to_owned();
        let n = self.entries.len();
        let mut i: usize = 0;
        while i < n
            invariant
                n == self.entries@.len(),
                i <= n,
                wanted@ == key@,
                forall|j: int| 0 <= j < i ==> (#[trigger] self.entries@[j]).0@ != key@,
            decreases n - i,
        {
            if self.entries[i].0 == wanted {
                proof {
                    lemma_lookup_index(self.entries@, key@, i as int);
                }
                return Some(&self.entries[i].1);
            }
            i = i + 1;
        }
        proof {
            lemma_lookup_index(self.entries@, key@, n as int);
            assert(self.entries@.skip(n as int) =~= Seq::<(String, OptionValue)>::empty());
        }
        None
    }

    /// Sets the value under `key`, replacing any earlier one.
    pub fn insert(&mut self, key: String, value: OptionValue)
        ensures
            final(self).get(key@) == Some(value),
            forall|other: Seq<char>|
                other != key@ ==> #[trigger] final(self).get(other) == old(self).get(other),
    {
        let ghost k = key@;
        let ghost v = value;
        let n = self.entries.len();
        let mut i: usize = 0;
        while i < n
            invariant
                n == self.entries@.len(),
                i <= n,
                k == key@,
                v == value,
                self.entries@ == old(self).entries@,
                forall|j: int| 0 <= j < i ==> (#[trigger] self.entries@[j]).0@ != k,
            decreases n - i,
        {
            if self.entries[i].0 == key {
                let ghost before = self.entries@;
                proof {
                    lemma_lookup_index(before, k, i as int);
                }
                self.entries.set(i, (key, value));
                proof {
                    let after = self.entries@;
                    assert(after == before.update(i as int, (after[i as int].0, v)));
                    lemma_lookup_index(after, k, i as int);
                    assert forall|other: Seq<char>| other != k implies #[trigger] lookup(
                        after,
                        other,
                    ) == lookup(before, other) by {
                        lemma_lookup_update(before, i as int, after[i as int], other);
                    }
                }
                return;
            }
            i = i + 1;
        }
        let ghost before = self.entries@;
        self.entries.push((key, value));
        proof {
            assert forall|other: Seq<char>| #[trigger] lookup(self.entries@, other) == (if other
                == k {
                Some(v)
            } else {
                lookup(before, other)
            }) by {
                lemma_lookup_push(before, self.entries@[n as int], other);
            }
        }
    }
}

/// The bytes without their trailing NULs.
pub open spec fn strip_nuls(b: Seq<u8>) -> Seq<u8>
    decreases b.len(),
{
    if b.len() > 0 && b[b.len() - 1] == 0 {
        strip_nuls(b.drop_last())
    } else {
        b
    }
}

pub open spec fn nul_free(b: Seq<u8>) -> bool {
    forall|i: int| 0 <= i < b.len() ==> b[i] != 0
}

/// A byte string option: its bytes up to the NUL terminators, unless a NUL
/// stands inside it.
pub open spec fn decoded_path(b: Seq<u8>) -> Option<Seq<u8>> {
    let s = strip_nuls(b);
    if nul_free(s) {
        Some(s)
    } else {
        None
    }
}

/// A file name in a byte-array list: as `decoded_path`, and nonempty.
pub open spec fn decoded_name(b: Seq<u8>) -> Option<Seq<u8>> {
    let s = strip_nuls(b);
    if s.len() > 0 && nul_free(s) {
        Some(s)
    } else {
        None
    }
}

/// The boolean under a key: false when missing or not a boolean.
pub open spec fn bool_option(options: PortalOptions, key: Seq<char>) -> bool {
    match options.get(key) {
        Some(OptionValue::Bool(b)) => b,
        _ => false,
    }
}

/// The byte string under a key, decoded.
pub open spec fn bytes_option(options: PortalOptions, key: Seq<char>) -> Option<Seq<u8>> {
    match options.get(key) {
        Some(OptionValue::Bytes(b)) => decoded_path(b@),
        Some(OptionValue::EmptyArray) => decoded_path(Seq::empty()),
        _ => None,
    }
}

/// The decoded file names of a list, or none when any of them is invalid.
pub open spec fn decoded_names(arrays: Seq<Vec<u8>>) -> Option<Seq<Seq<u8>>>
    decreases arrays.len(),
{
    if arrays.len() == 0 {
        Some(Seq::empty())
    } else {
        match (decoded_names(arrays.drop_last()), decoded_name(arrays.last()@)) {
            (Some(names), Some(name)) => Some(names.push(name)),
            _ => None,
        }
    }
}

/// The list of file names under a key.
pub open spec fn names_option(options: PortalOptions, key: Seq<char>) -> Option<Seq<Seq<u8>>> {
    match options.get(key) {
        Some(OptionValue::ByteArrays(arrays)) => decoded_names(arrays@),
        Some(OptionValue::EmptyArray) => Some(Seq::empty()),
        _ => None,
    }
}

fn strip_trailing_nuls(bytes: &Vec<u8>) -> (r: (usize, bool))
    ensures
        r.0 <= bytes@.len(),
        bytes@.take(r.0 as int) == strip_nuls(bytes@),
        r.1 == nul_free(strip_nuls(bytes@)),
{
    let mut end = bytes.len();
    proof {
        assert(bytes@.take(bytes@.len() as int) =~= bytes@);
    }
    while end > 0 && bytes[end - 1] == 0
        invariant
            end <= bytes@.len(),
            strip_nuls(bytes@) == strip_nuls(bytes@.take(end as int)),
        decreases end,
    {
        proof {
            assert(bytes@.take(end as int).drop_last() =~= bytes@.take(end - 1));
        }
        end = end - 1;
    }
    proof {
        assert(strip_nuls(bytes@.take(end as int)) == bytes@.take(end as int));
    }
    let mut i: usize = 0;
    while i < end
        invariant
            end <= bytes@.len(),
            bytes@.take(end as int) == strip_nuls(bytes@),
            i <= end,
            forall|j: int| 0 <= j < i ==> bytes@[j] != 0,
        decreases end - i,
    {
        if bytes[i] == 0 {
            proof {
                assert(bytes@.take(end as int)[i as int] == 0);
            }
            return (end, false);
        }
        i = i + 1;
    }
    (end, true)
}

fn prefix_of(bytes: &Vec<u8>, end: usize) -> (r: Vec<u8>)
    requires
        end <= bytes@.len(),
    ensures
        r@ == bytes@.take(end as int),
{
    let mut out: Vec<u8> = Vec::new();
    let mut i: usize = 0;
    while i < end
        invariant
            end <= bytes@.len(),
            i <= end,
            out@ == bytes@.take(i as int),
        decreases end - i,
    {
        out.push(bytes[i]);
        proof {
            assert(bytes@.take(i + 1) =~= bytes@.take(i as int).push(bytes@[i as int]));
        }
        i = i + 1;
    }
    out
}

/// A file name from a byte array: trailing NULs dropped; empty names and
/// names with an inner NUL refused.
pub fn bytes_to_os_string(bytes: Vec<u8>) -> (r: Option<Vec<u8>>)
    ensures
        opt_bytes(r) == decoded_name(bytes@),
{
    let (end, clean) = strip_trailing_nuls(&bytes);
    if end == 0 || !clean {
        return None;
    }
    Some(prefix_of(&bytes, end))
}

/// Whether the option under `key` is the boolean `true`.
pub fn get_bool_option(options: &PortalOptions, key: &str) -> (r: bool)
    ensures
        r == bool_option(*options, key@),
{
    match options.value_of(key) {
        Some(OptionValue::Bool(b)) => *b,
        _ => false,
    }
}

/// The byte-string option under `key` (a path), NUL terminators dropped;
/// none when it is missing, not a byte string, or holds an inner NUL.
pub fn get_bytes_option(options: &PortalOptions, key: &str) -> (r: Option<Vec<u8>>)
    ensures
        opt_bytes(r) == bytes_option(*options, key@),
{
    match options.value_of(key) {
        Some(OptionValue::Bytes(bytes)) => {
            let (end, clean) = strip_trailing_nuls(bytes);
            if !clean {
                return None;
            }
            Some(prefix_of(bytes, end))
        },
        Some(OptionValue::EmptyArray) => {
            let empty: Vec<u8> = Vec::new();
            proof {
                assert(strip_nuls(empty@) == empty@);
            }
            Some(empty)
        },
        _ => None,
    }
}

/// The list of file names under `key`; none when it is missing, not a list
/// of byte arrays, or any name in it is empty or holds an inner NUL.
pub fn get_byte_arrays_option(options: &PortalOptions, key: &str) -> (r: Option<Vec<Vec<u8>>>)
    ensures
        match r {
            Some(v) => names_option(*options, key@) == Some(byte_views(v@)),
            None => names_option(*options, key@) is None,
        },
{
    match options.value_of(key) {
        Some(OptionValue::ByteArrays(arrays)) => {
            let mut names: Vec<Vec<u8>> = Vec::new();
            let mut i: usize = 0;
            while i < arrays.len()
                invariant
                    i <= arrays@.len(),
                    options.get(key@) == Some(OptionValue::ByteArrays(*arrays)),
                    decoded_names(arrays@.take(i as int)) == Some(byte_views(names@)),
                decreases arrays@.len() - i,
            {
                proof {
                    assert(arrays@.take(i + 1).drop_last() =~= arrays@.take(i as int));
                    assert(arrays@.take(i + 1).last() == arrays@[i as int]);
                }
                let (end, clean) = strip_trailing_nuls(&arrays[i]);
                if end == 0 || !clean {
                    proof {
                        lemma_decoded_names_none(arrays@, i as int);
                    }
                    return None;
                }
                names.push(prefix_of(&arrays[i], end));
                proof {
                    assert(byte_views(names@) =~= byte_views(names@.drop_last()).push(names@.last()@));
                }
                i = i + 1;
            }
            proof {
                assert(arrays@.take(arrays@.len() as int) =~= arrays@);
            }
            Some(names)
        },
        Some(OptionValue::EmptyArray) => {
            let names: Vec<Vec<u8>> = Vec::new();
            proof {
                assert(byte_views(names@) =~= Seq::<Seq<u8>>::empty());
            }
            Some(names)
        },
        _ => None,
    }
}

/// One invalid name makes the whole list invalid.
proof fn lemma_decoded_names_none(arrays: Seq<Vec<u8>>, i: int)
    requires
        0 <= i < arrays.len(),
        decoded_name(arrays[i]@) is None,
    ensures
        decoded_names(arrays) is None,
    decreases arrays.len(),
{
    if i < arrays.len() - 1 {
        lemma_decoded_names_none(arrays.drop_last(), i);
    }
}

} // verus!
