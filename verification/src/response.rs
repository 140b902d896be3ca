//! The portal's answer to a FileChooser call: the response code and the
//! `uris` result, from what the chooser run produced.

use vstd::prelude::*;
use crate::chooser::ChooserRequest;
use crate::options::{
    bytes_option, get_byte_arrays_option, get_bool_option, get_bytes_option,
    bool_option, names_option, PortalOptions,
};
use crate::paths::{
    file_uri, is_absolute, is_plain_file_name, is_safe_file_name, join, join_path, parent,
    parent_dir_from_path,
};
use crate::selection::{
    decimal,
    first_relative, read_selections, selection_error, selections_of, selections_to_uris, uris_of,
    validate_selections,
};
use crate::text::{
    append_all, byte_views, chars_of, lossy_string, opt_bytes, range_equals, string_of, texts,
    utf8_lossy,
};

verus! {

/// The response code for an error: 1 (cancelled) when nothing was selected
/// or the request was closed, 2 for any other error.
pub open spec fn response_code(error: Seq<char>) -> u32 {
    if error == "No files selected"@ || error == "Request cancelled"@ {
        1
    } else {
        2
    }
}

pub fn response_code_for_error(error: &str) -> (code: u32)
    ensures
        code == response_code(error@),
{
    let e = chars_of(error);
    let none = range_equals(&e, 0, e.len(), &chars_of("No files selected"));
    let cancelled = range_equals(&e, 0, e.len(), &chars_of("Request cancelled"));
    proof {
        assert(e@.subrange(0, e@.len() as int) =~= error@);
    }
    if none || cancelled {
        1
    } else {
        2
    }
}

/// A failed run answers 1, a cancellation, exactly when the error is "No
/// files selected" or "Request cancelled"; every other error answers 2.
pub proof fn lemma_response_code_cases(e: Seq<char>)
    ensures
        (response_code(e) == 1) <==> (e == "No files selected"@ || e == "Request cancelled"@),
        (response_code(e) == 2) <==> !(e == "No files selected"@ || e == "Request cancelled"@),
{
}

/// A single-selection request that the chooser answered with several paths
/// fails with code 2; it is not taken for a cancellation.
pub proof fn lemma_too_many_paths_is_failure(sels: Seq<Seq<u8>>)
    requires
        sels.len() > 1,
    ensures
        selection_error(sels, false) matches Some(e) && response_code(e) == 2,
{
    reveal_strlit("Chooser returned ");
    reveal_strlit("No files selected");
    reveal_strlit("Request cancelled");
    let e = "Chooser returned "@ + decimal(sels.len()) + " paths for a single-selection request"@;
    assert(selection_error(sels, false) == Some(e));
    assert(e[0] == 'C');
    assert(e != "No files selected"@) by {
        assert("No files selected"@[0] == 'N');
    }
    assert(e != "Request cancelled"@) by {
        assert("Request cancelled"@[0] == 'R');
    }
}

/// The result fields of a response: the selected URIs, or nothing.
pub struct PortalResults {
    pub uris: Option<Vec<String>>,
}

/// The URIs that results carry, if any.
pub open spec fn result_uris(r: PortalResults) -> Option<Seq<Seq<char>>> {
    match r.uris {
        Some(v) => Some(texts(v@)),
        None => None,
    }
}

/// No result fields.
pub fn empty_results() -> (r: PortalResults)
    ensures
        result_uris(r) is None,
{
    PortalResults { uris: None }
}

/// Results that carry the `uris` string array.
pub fn build_uris_result(uris: Vec<String>) -> (r: PortalResults)
    ensures
        result_uris(r) == Some(texts(uris@)),
{
    PortalResults { uris: Some(uris) }
}

/// What a chooser run yielded: the terminal's error, or the selection, or
/// what is wrong with the selection.
pub open spec fn chooser_result(
    terminal: Result<(), Seq<char>>,
    output: Seq<u8>,
    multiple: bool,
) -> Result<Seq<Seq<u8>>, Seq<char>> {
    match terminal {
        Err(e) => Err(e),
        Ok(_) => {
            let sels = selections_of(output);
            match selection_error(sels, multiple) {
                Some(e) => Err(e),
                None => Ok(sels),
            }
        },
    }
}

pub open spec fn unit_result(r: Result<(), String>) -> Result<(), Seq<char>> {
    match r {
        Ok(_) => Ok(()),
        Err(e) => Err(e@),
    }
}

pub open spec fn paths_result(r: Result<Vec<Vec<u8>>, String>) -> Result<Seq<Seq<u8>>, Seq<char>> {
    match r {
        Ok(v) => Ok(byte_views(v@)),
        Err(e) => Err(e@),
    }
}

/// The outcome of a chooser run: once the terminal has exited, the paths
/// the chooser wrote to its output file (`output`), checked.
pub fn chooser_outcome(terminal: Result<(), String>, output: &[u8], multiple: bool) -> (r: Result<
    Vec<Vec<u8>>,
    String,
>)
    ensures
        paths_result(r) == chooser_result(unit_result(terminal), output@, multiple),
{
    match terminal {
        Err(e) => Err(e),
        Ok(()) => {
            let selections = read_selections(output);
            match validate_selections(&selections, multiple) {
                Err(e) => Err(e),
                Ok(()) => Ok(selections),
            }
        },
    }
}

/// The response for a run's outcome: code 0 with the URIs of the selected
/// paths, or the error's code and no results.
pub open spec fn selection_response(outcome: Result<Seq<Seq<u8>>, Seq<char>>) -> (
    u32,
    Option<Seq<Seq<char>>>,
) {
    match outcome {
        Err(e) => (response_code(e), None),
        Ok(paths) => match uris_of(paths) {
            Ok(uris) => (0, Some(uris)),
            Err(e) => (response_code(e), None),
        },
    }
}

/// The OpenFile and SaveFile response for a run's outcome.
pub fn uris_response(outcome: Result<Vec<Vec<u8>>, String>) -> (r: (u32, PortalResults))
    ensures
        (r.0, result_uris(r.1)) == selection_response(paths_result(outcome)),
{
    match outcome {
        Err(e) => (response_code_for_error(e.as_str()), empty_results()),
        Ok(paths) => match selections_to_uris(&paths) {
            Ok(uris) => (0, build_uris_result(uris)),
            Err(e) => (response_code_for_error(e.as_str()), empty_results()),
        },
    }
}

/// Without output from the chooser, a terminal that exited successfully is
/// a cancellation: code 1 and no results.
pub proof fn lemma_no_output_is_cancellation(multiple: bool)
    ensures
        selection_response(chooser_result(Ok(()), Seq::empty(), multiple)) == (
            1u32,
            None::<Seq<Seq<char>>>,
        ),
{
    assert(Seq::<u8>::empty().take(0) =~= Seq::<u8>::empty());
    assert(selections_of(Seq::<u8>::empty()) =~= Seq::<Seq<u8>>::empty());
}

/// A closed request is answered as cancelled, with no results, whatever the
/// chooser wrote.
pub proof fn lemma_closed_request_is_cancellation(output: Seq<u8>, multiple: bool)
    ensures
        selection_response(chooser_result(Err("Request cancelled"@), output, multiple)) == (
            1u32,
            None::<Seq<Seq<char>>>,
        ),
{
}

/// Errors return no result fields: a response carries URIs exactly when its
/// code is 0, and every other code is 1 or 2.
pub proof fn lemma_errors_carry_no_results(outcome: Result<Seq<Seq<u8>>, Seq<char>>)
    ensures
        ({
            let (code, uris) = selection_response(outcome);
            &&& (code == 0) == (uris is Some)
            &&& code == 0 || code == 1 || code == 2
        }),
{
}

/// The same holds of SaveFiles.
pub proof fn lemma_save_files_errors_carry_no_results(
    directory: Seq<u8>,
    is_dir: bool,
    names: Seq<Seq<u8>>,
)
    ensures
        ({
            let (code, uris) = save_files_answer(directory, is_dir, names);
            &&& (code == 0) == (uris is Some)
            &&& code == 0 || code == 2
        }),
{
}

/// The URIs of the paths, each absolute.
proof fn lemma_uris_of_absolute(paths: Seq<Seq<u8>>)
    requires
        forall|i: int| 0 <= i < paths.len() ==> is_absolute(#[trigger] paths[i]),
    ensures
        uris_of(paths) == Ok::<Seq<Seq<char>>, Seq<char>>(
            paths.map_values(|p: Seq<u8>| file_uri(p)),
        ),
    decreases paths.len(),
{
    if paths.len() > 0 {
        assert forall|i: int| 0 <= i < paths.drop_last().len() implies is_absolute(
            #[trigger] paths.drop_last()[i],
        ) by {
            assert(paths.drop_last()[i] == paths[i]);
        }
        lemma_uris_of_absolute(paths.drop_last());
        assert(paths.map_values(|p: Seq<u8>| file_uri(p)) =~= paths.drop_last().map_values(
            |p: Seq<u8>| file_uri(p),
        ).push(file_uri(paths.last())));
    } else {
        assert(paths.map_values(|p: Seq<u8>| file_uri(p)) =~= Seq::<Seq<char>>::empty());
    }
}

proof fn lemma_first_relative_none(sels: Seq<Seq<u8>>, i: int)
    requires
        0 <= i <= sels.len(),
        first_relative(sels, i) is None,
    ensures
        forall|j: int| i <= j < sels.len() ==> is_absolute(#[trigger] sels[j]),
    decreases sels.len() - i,
{
    if i < sels.len() {
        lemma_first_relative_none(sels, i + 1);
    }
}

/// Only what the chooser explicitly wrote is accepted: a response with
/// code 0 carries the `file:` URIs of the nonempty lines of the chooser's
/// output, at least one of them, all absolute, and exactly one unless
/// several were asked for.
pub proof fn lemma_acceptance_is_chooser_output(
    terminal: Result<(), Seq<char>>,
    output: Seq<u8>,
    multiple: bool,
)
    ensures
        ({
            let (code, uris) = selection_response(chooser_result(terminal, output, multiple));
            let sels = selections_of(output);
            code == 0 ==> {
                &&& terminal is Ok
                &&& sels.len() >= 1
                &&& (!multiple ==> sels.len() == 1)
                &&& forall|i: int| 0 <= i < sels.len() ==> is_absolute(#[trigger] sels[i])
                &&& uris == Some(sels.map_values(|p: Seq<u8>| file_uri(p)))
            }
        }),
{
    let sels = selections_of(output);
    if terminal is Ok && selection_error(sels, multiple) is None {
        lemma_first_relative_none(sels, 0);
        lemma_uris_of_absolute(sels);
    }
}

fn owned(s: &str) -> (r: String)
    ensures
        r@ == s@,
{
    string_of(chars_of(s).as_slice())
}

/// The OpenFile request: start in `current_folder` when given, allow
/// several paths only when `multiple` is true, and ask for directories when
/// `directory` is true.
pub fn open_file_request(options: &PortalOptions, title: &str) -> (r: ChooserRequest)
    ensures
        r.title@ == title@,
        opt_bytes(r.start_path) == bytes_option(*options, "current_folder"@),
        r.multiple == bool_option(*options, "multiple"@),
        r.directory == bool_option(*options, "directory"@),
{
    ChooserRequest {
        title: owned(title),
        start_path: get_bytes_option(options, "current_folder"),
        multiple: get_bool_option(options, "multiple"),
        directory: get_bool_option(options, "directory"),
    }
}

/// The first chosen path that is not an existing directory.
pub open spec fn first_non_directory(is_dir: Seq<bool>, i: int) -> Option<int>
    decreases is_dir.len() - i,
{
    if i < 0 || i >= is_dir.len() {
        None
    } else if !is_dir[i] {
        Some(i)
    } else {
        first_non_directory(is_dir, i + 1)
    }
}

/// The error for a chosen path that is not a directory.
pub open spec fn not_directory_error(p: Seq<u8>) -> Seq<char> {
    not_directory_error_for(utf8_lossy(p))
}

/// The error for a path that is not a directory, shown as `shown`.
pub open spec fn not_directory_error_for(shown: Seq<char>) -> Seq<char> {
    "Chooser returned a path that is not a directory: "@ + shown
}

/// The error for a path that is not a directory, given the path as text.
pub fn not_directory_error_text(shown: &str) -> (e: String)
    ensures
        e@ == not_directory_error_for(shown@),
{
    let mut message = chars_of("Chooser returned a path that is not a directory: ");
    append_all(&mut message, &chars_of(shown));
    string_of(message.as_slice())
}

/// A run's outcome once the directory requirement is applied: when the
/// request asks for directories, a chosen path that is not an existing
/// directory is an error.
pub open spec fn directory_result(
    outcome: Result<Seq<Seq<u8>>, Seq<char>>,
    directory: bool,
    is_dir: Seq<bool>,
) -> Result<Seq<Seq<u8>>, Seq<char>> {
    match outcome {
        Ok(paths) => if directory {
            match first_non_directory(is_dir, 0) {
                Some(i) => Err(not_directory_error(paths[i])),
                None => Ok(paths),
            }
        } else {
            Ok(paths)
        },
        Err(e) => Err(e),
    }
}

proof fn lemma_first_non_directory_none(is_dir: Seq<bool>, i: int)
    requires
        0 <= i <= is_dir.len(),
        first_non_directory(is_dir, i) is None,
    ensures
        forall|j: int| i <= j < is_dir.len() ==> #[trigger] is_dir[j],
    decreases is_dir.len() - i,
{
    if i < is_dir.len() {
        lemma_first_non_directory_none(is_dir, i + 1);
    }
}

/// When OpenFile asks for directories, what it accepts are existing
/// directories only: an accepted outcome has every path flagged a
/// directory.
pub proof fn lemma_directory_request_accepts_only_directories(
    outcome: Result<Seq<Seq<u8>>, Seq<char>>,
    is_dir: Seq<bool>,
)
    ensures
        directory_result(outcome, true, is_dir) is Ok ==> forall|i: int|
            0 <= i < is_dir.len() ==> #[trigger] is_dir[i],
{
    if outcome is Ok && first_non_directory(is_dir, 0) is None {
        lemma_first_non_directory_none(is_dir, 0);
    }
}

/// Applies the OpenFile directory requirement to a run's outcome;
/// `is_dir` tells, for each chosen path, whether it is an existing
/// directory.
pub fn require_directories(
    outcome: Result<Vec<Vec<u8>>, String>,
    directory: bool,
    is_dir: &Vec<bool>,
) -> (r: Result<Vec<Vec<u8>>, String>)
    requires
        outcome matches Ok(paths) ==> paths@.len() == is_dir@.len(),
    ensures
        paths_result(r) == directory_result(paths_result(outcome), directory, is_dir@),
{
    let ghost original = paths_result(outcome);
    let paths = match outcome {
        Err(e) => return Err(e),
        Ok(paths) => paths,
    };
    if !directory {
        return Ok(paths);
    }
    let mut i: usize = 0;
    while i < is_dir.len()
        invariant
            i <= is_dir@.len() == paths@.len(),
            directory,
            original == paths_result(outcome),
            original == Ok::<Seq<Seq<u8>>, Seq<char>>(byte_views(paths@)),
            first_non_directory(is_dir@, 0) == first_non_directory(is_dir@, i as int),
        decreases is_dir@.len() - i,
    {
        if !is_dir[i] {
            let r = not_directory_error_text(lossy_string(paths[i].as_slice()).as_str());
            proof {
                assert(byte_views(paths@)[i as int] == paths@[i as int]@);
                assert(first_non_directory(is_dir@, i as int) == Some(i as int));
                assert(r@ == not_directory_error(byte_views(paths@)[i as int]));
            }
            return Err(r);
        }
        i = i + 1;
    }
    Ok(paths)
}

/// Where SaveFile starts: `current_folder`, else the parent of
/// `current_file`.
pub open spec fn save_start(options: PortalOptions) -> Option<Seq<u8>> {
    match bytes_option(options, "current_folder"@) {
        Some(folder) => Some(folder),
        None => match bytes_option(options, "current_file"@) {
            Some(file) => parent(file),
            None => None,
        },
    }
}

/// The SaveFile request: one path, starting in `current_folder` or in the
/// directory of `current_file`.
pub fn save_file_request(options: &PortalOptions, title: &str) -> (r: ChooserRequest)
    ensures
        r.title@ == title@,
        opt_bytes(r.start_path) == save_start(*options),
        !r.multiple,
        !r.directory,
{
    let folder = get_bytes_option(options, "current_folder");
    let start = match folder {
        Some(f) => Some(f),
        None => match get_bytes_option(options, "current_file") {
            Some(file) => parent_dir_from_path(file.as_slice()),
            None => None,
        },
    };
    ChooserRequest { title: owned(title), start_path: start, multiple: false, directory: false }
}

/// Whether every name is a plain file name.
pub open spec fn all_plain(names: Seq<Seq<u8>>) -> bool {
    forall|i: int| 0 <= i < names.len() ==> is_plain_file_name(#[trigger] names[i])
}

/// The SaveFiles request, or the error response when the `files` option is
/// missing or invalid, or holds a name that is not a plain file name.
pub fn save_files_request(options: &PortalOptions, title: &str) -> (r: Result<
    (ChooserRequest, Vec<Vec<u8>>),
    (u32, PortalResults),
>)
    ensures
        match r {
            Ok((request, names)) => names_option(*options, "files"@) == Some(byte_views(names@))
                && all_plain(byte_views(names@)) && request.title@ == title@ && opt_bytes(
                request.start_path,
            ) == bytes_option(*options, "current_folder"@) && !request.multiple
                && !request.directory,
            Err((code, results)) => code == 2 && result_uris(results) is None && (names_option(
                *options,
                "files"@,
            ) matches Some(names) ==> !all_plain(names)),
        },
{
    let names = match get_byte_arrays_option(options, "files") {
        Some(names) => names,
        None => return Err((2, empty_results())),
    };
    let mut i: usize = 0;
    while i < names.len()
        invariant
            i <= names@.len(),
            names_option(*options, "files"@) == Some(byte_views(names@)),
            forall|j: int| 0 <= j < i ==> is_plain_file_name(#[trigger] byte_views(names@)[j]),
        decreases names@.len() - i,
    {
        if !is_safe_file_name(names[i].as_slice()) {
            proof {
                assert(byte_views(names@)[i as int] == names@[i as int]@);
                assert(!all_plain(byte_views(names@)));
            }
            return Err((2, empty_results()));
        }
        i = i + 1;
    }
    let request = ChooserRequest {
        title: owned(title),
        start_path: get_bytes_option(options, "current_folder"),
        multiple: false,
        directory: false,
    };
    Ok((request, names))
}

/// The paths that SaveFiles answers with: each name joined to the chosen
/// directory.
pub open spec fn joined_names(directory: Seq<u8>, names: Seq<Seq<u8>>) -> Seq<Seq<u8>> {
    names.map_values(|n: Seq<u8>| join(directory, n))
}

/// The SaveFiles response once a directory was chosen: an error unless it
/// is an existing directory, else the URI of each name in it.
pub open spec fn save_files_answer(directory: Seq<u8>, is_dir: bool, names: Seq<Seq<u8>>) -> (
    u32,
    Option<Seq<Seq<char>>>,
) {
    if !is_dir {
        (2, None)
    } else {
        match uris_of(joined_names(directory, names)) {
            Ok(uris) => (0, Some(uris)),
            Err(_) => (2, None),
        }
    }
}

/// The SaveFiles response for a chosen directory; `is_dir` tells whether it
/// is an existing directory.
pub fn save_files_success_result(directory: &[u8], is_dir: bool, names: &Vec<Vec<u8>>) -> (r: (
    u32,
    PortalResults,
))
    ensures
        (r.0, result_uris(r.1)) == save_files_answer(directory@, is_dir, byte_views(names@)),
{
    if !is_dir {
        return (2, empty_results());
    }
    let mut paths: Vec<Vec<u8>> = Vec::new();
    let mut i: usize = 0;
    while i < names.len()
        invariant
            i <= names@.len(),
            byte_views(paths@) == joined_names(directory@, byte_views(names@)).take(i as int),
        decreases names@.len() - i,
    {
        let ghost prev = paths@;
        paths.push(join_path(directory, names[i].as_slice()));
        proof {
            let joined = joined_names(directory@, byte_views(names@));
            assert(byte_views(names@)[i as int] == names@[i as int]@);
            assert(joined[i as int] == join(directory@, names@[i as int]@));
            assert(byte_views(paths@) =~= byte_views(prev).push(paths@.last()@));
            assert(joined.take(i + 1) =~= joined.take(i as int).push(joined[i as int]));
            assert(byte_views(paths@) =~= joined.take(i + 1));
        }
        i = i + 1;
    }
    proof {
        assert(joined_names(directory@, byte_views(names@)).take(names@.len() as int)
            =~= joined_names(directory@, byte_views(names@)));
    }
    match selections_to_uris(&paths) {
        Ok(uris) => (0, build_uris_result(uris)),
        Err(_) => (2, empty_results()),
    }
}

/// The SaveFiles response for a run's outcome; `directory_is_dir` tells
/// whether the chosen path is an existing directory.
pub fn save_files_response(
    outcome: Result<Vec<Vec<u8>>, String>,
    directory_is_dir: bool,
    names: &Vec<Vec<u8>>,
) -> (r: (u32, PortalResults))
    requires
        outcome matches Ok(paths) ==> paths@.len() >= 1,
    ensures
        match outcome {
            Err(e) => r.0 == response_code(e@) && result_uris(r.1) is None,
            Ok(paths) => (r.0, result_uris(r.1)) == save_files_answer(
                paths@[0]@,
                directory_is_dir,
                byte_views(names@),
            ),
        },
{
    match outcome {
        Err(e) => (response_code_for_error(e.as_str()), empty_results()),
        Ok(paths) => save_files_success_result(paths[0].as_slice(), directory_is_dir, names),
    }
}

/// How the terminal stands when polled.
pub enum TerminalStatus {
    /// Still running.
    Running,
    /// Exited; `description` is its exit status as text.
    Exited { success: bool, description: String },
    /// Waiting for it failed; `detail` says why.
    WaitFailed { detail: String },
}

/// What a poll of the terminal means: keep waiting (none), success, or the
/// error.
pub open spec fn exit_result(status: TerminalStatus) -> Option<Result<(), Seq<char>>> {
    match status {
        TerminalStatus::Running => None,
        TerminalStatus::Exited { success, description } => if success {
            Some(Ok(()))
        } else {
            Some(Err("Terminal exited with: "@ + description@))
        },
        TerminalStatus::WaitFailed { detail } => Some(Err("Failed to wait for terminal: "@ + detail@)),
    }
}

/// The outcome of a terminal poll, once the terminal has stopped.
pub fn exit_outcome(status: TerminalStatus) -> (r: Option<Result<(), String>>)
    ensures
        match r {
            None => exit_result(status) is None,
            Some(res) => exit_result(status) == Some(unit_result(res)),
        },
{
    match status {
        TerminalStatus::Running => None,
        TerminalStatus::Exited { success, description } => {
            if success {
                Some(Ok(()))
            } else {
                let mut message = chars_of("Terminal exited with: ");
                append_all(&mut message, &chars_of(description.as_str()));
                Some(Err(string_of(message.as_slice())))
            }
        },
        TerminalStatus::WaitFailed { detail } => {
            let mut message = chars_of("Failed to wait for terminal: ");
            append_all(&mut message, &chars_of(detail.as_str()));
            Some(Err(string_of(message.as_slice())))
        },
    }
}

/// The error of a run that the request's Close call stopped.
pub fn cancellation_error() -> (e: String)
    ensures
        e@ == "Request cancelled"@,
{
    owned("Request cancelled")
}

} // verus!
