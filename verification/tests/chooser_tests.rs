use termfilechooser::cancel::{CancellationToken, PortalRequest};
use termfilechooser::chooser::{ChooserRequest, CommandArg, FileChooser};
use termfilechooser::config::Config;
use termfilechooser::options::{
    bytes_to_os_string, get_bool_option, get_byte_arrays_option, get_bytes_option, OptionValue,
    PortalOptions,
};
use std::io::{Read, Seek, Write};
use termfilechooser::paths::parent_dir_from_path;
use termfilechooser::response::{
    build_uris_result, cancellation_error, chooser_outcome, exit_outcome, not_directory_error_text,
    open_file_request,
    require_directories,
    response_code_for_error, save_file_request, save_files_request, save_files_response,
    uris_response, TerminalStatus,
};
use termfilechooser::selection::{read_selections, selections_to_uris, validate_selections};

/// A temporary file holding `content`, and what reading it back gives.
fn written_and_read(content: &[u8]) -> Vec<u8> {
    let mut tmp = tempfile::NamedTempFile::new().unwrap();
    tmp.write_all(content).unwrap();
    tmp.flush().unwrap();
    let mut file = tmp.reopen().unwrap();
    file.rewind().unwrap();
    let mut read = Vec::new();
    file.read_to_end(&mut read).unwrap();
    read
}

fn test_config() -> Config {
    Config::default()
}

fn text(arg: &CommandArg) -> Vec<u8> {
    match arg {
        CommandArg::Text(s) => s.as_bytes().to_vec(),
        CommandArg::Bytes(b) => b.clone(),
    }
}

fn texts(args: &[CommandArg]) -> Vec<Vec<u8>> {
    args.iter().map(text).collect()
}

fn request(title: &str, start_path: Option<&str>, multiple: bool) -> ChooserRequest {
    ChooserRequest {
        title: title.to_string(),
        start_path: start_path.map(|p| p.as_bytes().to_vec()),
        multiple,
        directory: false,
    }
}

/// A chooser run whose terminal ended with `terminal` after the chooser
/// wrote `output`, answered with URIs.
fn run_chooser(
    terminal: Result<(), String>,
    output: &[u8],
    request: &ChooserRequest,
) -> Result<Vec<String>, String> {
    let paths = chooser_outcome(terminal, output, request.multiple)?;
    selections_to_uris(&paths)
}

fn options_with(entries: Vec<(&str, OptionValue)>) -> PortalOptions {
    let mut options = PortalOptions::new();
    for (key, value) in entries {
        options.insert(key.to_string(), value);
    }
    options
}

#[test]
fn option_helpers_decode_bool_string_and_nul_terminated_bytes() {
    let mut options = PortalOptions::new();
    options.insert("multiple".into(), OptionValue::Bool(true));
    options.insert(
        "current_folder".into(),
        OptionValue::Bytes(vec![b'/', b't', b'm', b'p', b'\0']),
    );

    assert!(get_bool_option(&options, "multiple"));
    assert!(!get_bool_option(&options, "missing"));
    assert_eq!(
        get_bytes_option(&options, "current_folder"),
        Some(b"/tmp".to_vec())
    );

    options.insert(
        "non_utf8_folder".into(),
        OptionValue::Bytes(vec![b'/', b't', b'm', b'p', b'/', 0xff, b'\0']),
    );
    assert!(get_bytes_option(&options, "non_utf8_folder").is_some());

    options.insert("not_bool".into(), OptionValue::Other);
    options.insert("not_bytes".into(), OptionValue::Other);
    assert!(!get_bool_option(&options, "not_bool"));
    assert_eq!(get_bytes_option(&options, "not_bytes"), None);
}

#[test]
fn option_insert_replaces_earlier_value_and_inner_nul_is_refused() {
    let mut options = PortalOptions::new();
    options.insert("multiple".into(), OptionValue::Bool(true));
    options.insert("multiple".into(), OptionValue::Bool(false));
    assert!(!get_bool_option(&options, "multiple"));

    options.insert("folder".into(), OptionValue::Bytes(b"/a\0b\0\0".to_vec()));
    assert_eq!(get_bytes_option(&options, "folder"), None);

    options.insert(
        "files".into(),
        OptionValue::ByteArrays(vec![b"a\0".to_vec(), b"\0".to_vec()]),
    );
    assert_eq!(get_byte_arrays_option(&options, "files"), None);
    options.insert(
        "files".into(),
        OptionValue::ByteArrays(vec![b"a\0".to_vec(), b"b".to_vec()]),
    );
    assert_eq!(
        get_byte_arrays_option(&options, "files"),
        Some(vec![b"a".to_vec(), b"b".to_vec()])
    );

    assert_eq!(bytes_to_os_string(b"name\0\0".to_vec()), Some(b"name".to_vec()));
    assert_eq!(bytes_to_os_string(b"\0".to_vec()), None);
    assert_eq!(bytes_to_os_string(b"a\0b".to_vec()), None);
}

#[test]
fn parent_dir_helper_extracts_parent() {
    assert_eq!(
        parent_dir_from_path(b"/home/osso/Downloads/example.txt"),
        Some(b"/home/osso/Downloads".to_vec())
    );
}

#[test]
fn chooser_args_insert_output_file() {
    let chooser = FileChooser::new(test_config());

    assert_eq!(
        texts(&chooser.build_chooser_args("/tmp/selection", b"/home/osso")),
        vec![
            b"yazi".to_vec(),
            b"--chooser-file=/tmp/selection".to_vec(),
            b"/home/osso".to_vec()
        ]
    );
}

#[test]
fn chooser_args_preserve_quoted_arguments() {
    let mut config = test_config();
    config.filechooser.chooser =
        "'/tmp/chooser with spaces' '--label=two words' --chooser-file".into();
    let chooser = FileChooser::new(config);

    assert_eq!(
        texts(&chooser.build_chooser_args("/tmp/selection", b"/home/osso")),
        vec![
            b"/tmp/chooser with spaces".to_vec(),
            b"--label=two words".to_vec(),
            b"--chooser-file=/tmp/selection".to_vec(),
            b"/home/osso".to_vec(),
        ]
    );
}

#[test]
fn terminal_command_wraps_chooser_after_title_and_separator() {
    let mut config = test_config();
    config.filechooser.terminal = "'/opt/my term' --title".into();
    config.filechooser.default_dir = "/srv/files".into();
    let chooser = FileChooser::new(config);

    let args = chooser
        .terminal_command(&request("Open", None, false), "/tmp/out")
        .unwrap()
        .unwrap();
    assert_eq!(
        texts(&args),
        vec![
            b"/opt/my term".to_vec(),
            b"--title".to_vec(),
            b"Open".to_vec(),
            b"--".to_vec(),
            b"yazi".to_vec(),
            b"--chooser-file=/tmp/out".to_vec(),
            b"/srv/files".to_vec(),
        ]
    );

    let mut config = test_config();
    config.filechooser.chooser = "'broken".into();
    assert!(FileChooser::new(config)
        .terminal_command(&request("Open", None, false), "/tmp/out")
        .is_none());
}

#[test]
fn spawn_terminal_rejects_empty_terminal_command() {
    let mut config = test_config();
    config.filechooser.terminal.clear();
    let chooser = FileChooser::new(config);

    let error = chooser
        .build_terminal_command(
            "ignored",
            &vec![
                CommandArg::Text("true".into()),
                CommandArg::Text("ignored".into()),
            ],
        )
        .unwrap_err();

    assert_eq!(error, "Terminal command cannot be empty");
}

#[test]
fn exit_outcome_reports_success_and_failure_status() {
    assert_eq!(exit_outcome(TerminalStatus::Running), None);
    assert_eq!(
        exit_outcome(TerminalStatus::Exited {
            success: true,
            description: "exit status: 0".into(),
        }),
        Some(Ok(()))
    );
    let error = exit_outcome(TerminalStatus::Exited {
        success: false,
        description: "exit status: 1".into(),
    })
    .unwrap()
    .unwrap_err();
    assert!(error.starts_with("Terminal exited with:"));
    assert_eq!(error, "Terminal exited with: exit status: 1");
    assert_eq!(
        exit_outcome(TerminalStatus::WaitFailed {
            detail: "gone".into()
        }),
        Some(Err("Failed to wait for terminal: gone".to_string()))
    );
}

#[test]
fn read_selections_prefers_explicit_output_paths() {
    let content = written_and_read(b"/tmp/a.txt\n\n/tmp/b.txt\n");

    let selections = read_selections(&content);

    assert_eq!(selections, vec![b"/tmp/a.txt".to_vec(), b"/tmp/b.txt".to_vec()]);
}

#[test]
fn read_selections_returns_empty_without_explicit_acceptance() {
    let content = written_and_read(b"");

    let selections = read_selections(&content);

    assert!(selections.is_empty());
}

#[test]
fn read_selections_drops_carriage_returns() {
    assert_eq!(
        read_selections(b"/a\r\n\r\n/b"),
        vec![b"/a".to_vec(), b"/b".to_vec()]
    );
}

#[test]
fn run_chooser_returns_error_when_terminal_writes_no_selection() {
    let error = run_chooser(
        Ok(()),
        b"",
        &request("ignored", Some("/home/osso/Downloads"), false),
    )
    .unwrap_err();

    assert_eq!(error, "No files selected");
}

#[test]
fn run_chooser_returns_encoded_file_uris_from_terminal_selection() {
    let selections =
        run_chooser(Ok(()), b"/tmp/space name #1.txt\n", &request("Open", None, false)).unwrap();

    assert_eq!(selections, vec!["file:///tmp/space%20name%20%231.txt"]);
}

#[test]
fn run_chooser_encodes_literal_percent_signs() {
    let selections =
        run_chooser(Ok(()), b"/tmp/literal%20name.txt\n", &request("Open", None, false)).unwrap();

    assert_eq!(selections, vec!["file:///tmp/literal%2520name.txt"]);
}

#[test]
fn run_chooser_encodes_non_utf8_path_bytes() {
    let selections =
        run_chooser(Ok(()), b"/tmp/nonutf8-\xff.txt\n", &request("Open", None, false)).unwrap();

    assert_eq!(selections, vec!["file:///tmp/nonutf8-%FF.txt"]);
}

#[test]
fn run_chooser_rejects_relative_paths() {
    let error = run_chooser(Ok(()), b"relative.txt\n", &request("Open", None, false)).unwrap_err();

    assert_eq!(error, "Chooser returned a relative path: relative.txt");
}

#[test]
fn run_chooser_rejects_multiple_results_for_single_selection() {
    let error = run_chooser(
        Ok(()),
        b"/tmp/one.txt\n/tmp/two.txt\n",
        &request("Open", None, false),
    )
    .unwrap_err();

    assert_eq!(
        error,
        "Chooser returned 2 paths for a single-selection request"
    );
}

#[test]
fn run_chooser_accepts_several_paths_when_multiple() {
    let selections = run_chooser(
        Ok(()),
        b"/tmp/one.txt\n/tmp/two.txt\n",
        &request("Open", None, true),
    )
    .unwrap();
    assert_eq!(selections, vec!["file:///tmp/one.txt", "file:///tmp/two.txt"]);
    assert_eq!(
        validate_selections(&vec![vec![b'/'; 1]; 12], false).unwrap_err(),
        "Chooser returned 12 paths for a single-selection request"
    );
}

#[test]
fn run_chooser_uses_requested_start_path() {
    let mut config = test_config();
    config.filechooser.terminal = "terminal".into();
    config.filechooser.chooser = "chooser --chooser-file".into();
    let chooser = FileChooser::new(config);
    let request = request("Save", Some("/home/osso/Downloads"), false);

    let args = chooser.terminal_command(&request, "/tmp/out").unwrap().unwrap();
    let start = texts(&args)
        .into_iter()
        .find(|arg| arg.starts_with(b"/home/"))
        .unwrap();
    let mut output = start.clone();
    output.extend_from_slice(b"/report.txt\n");
    let selections = run_chooser(Ok(()), &output, &request).unwrap();

    assert_eq!(selections, vec!["file:///home/osso/Downloads/report.txt"]);
}

#[test]
fn open_file_result_returns_uris_or_cancel_code() {
    let options = PortalOptions::new();
    let open = open_file_request(&options, "Open");
    assert!(!open.multiple);
    assert_eq!(open.start_path, None);

    let outcome = chooser_outcome(Ok(()), b"/tmp/open.txt\n", open.multiple);
    let (code, result) = uris_response(outcome);
    assert_eq!(code, 0);
    assert!(result.uris.is_some());

    let outcome = chooser_outcome(Ok(()), b"", open.multiple);
    let (code, result) = uris_response(outcome);
    assert_eq!(code, 1);
    assert!(result.uris.is_none());

    let spawn_failure = Err("Failed to spawn terminal: No such file or directory (os error 2)".to_string());
    let outcome = chooser_outcome(spawn_failure, b"", open.multiple);
    let (code, result) = uris_response(outcome);
    assert_eq!(code, 2);
    assert!(result.uris.is_none());
}

#[test]
fn open_file_request_reads_folder_and_multiple() {
    let options = options_with(vec![
        ("multiple", OptionValue::Bool(true)),
        ("current_folder", OptionValue::Bytes(b"/srv\0".to_vec())),
    ]);
    let open = open_file_request(&options, "Pick");
    assert!(open.multiple);
    assert_eq!(open.title, "Pick");
    assert_eq!(open.start_path, Some(b"/srv".to_vec()));
}

#[test]
fn save_file_result_returns_explicit_selection_or_cancel_code() {
    let options = options_with(vec![("current_name", OptionValue::Other)]);
    let save = save_file_request(&options, "Save");
    assert!(!save.multiple);
    assert!(!save.directory);

    let (code, result) = uris_response(chooser_outcome(Ok(()), b"/tmp/saved.txt\n", save.multiple));
    assert_eq!(code, 0);
    assert!(result.uris.is_some());

    let save = save_file_request(&PortalOptions::new(), "Save");
    let (code, result) = uris_response(chooser_outcome(Ok(()), b"", save.multiple));
    assert_eq!(code, 1);
    assert!(result.uris.is_none());
}

#[test]
fn save_file_starts_in_folder_or_parent_of_current_file() {
    let options = options_with(vec![(
        "current_file",
        OptionValue::Bytes(b"/home/osso/Downloads/example.txt\0".to_vec()),
    )]);
    assert_eq!(
        save_file_request(&options, "Save").start_path,
        Some(b"/home/osso/Downloads".to_vec())
    );

    let options = options_with(vec![
        ("current_folder", OptionValue::Bytes(b"/srv\0".to_vec())),
        (
            "current_file",
            OptionValue::Bytes(b"/home/osso/Downloads/example.txt\0".to_vec()),
        ),
    ]);
    assert_eq!(
        save_file_request(&options, "Save").start_path,
        Some(b"/srv".to_vec())
    );
}

#[test]
fn save_files_result_appends_each_filename_to_selected_directory() {
    let selected_dir = tempfile::tempdir().unwrap();
    let directory = selected_dir.path().as_os_str().as_encoded_bytes().to_vec();
    let options = options_with(vec![(
        "files",
        OptionValue::ByteArrays(vec![
            b"first.txt\0".to_vec(),
            vec![b'n', b'o', b'n', b'u', b't', b'f', b'8', b'-', 0xff, 0],
        ]),
    )]);

    let (request, names) = match save_files_request(&options, "Save files") {
        Ok(plan) => plan,
        Err(_) => panic!("files option refused"),
    };
    assert!(!request.directory);
    let mut output = directory.clone();
    output.push(b'\n');
    let outcome = chooser_outcome(Ok(()), &output, request.multiple);
    let (code, result) = save_files_response(outcome, selected_dir.path().is_dir(), &names);

    assert_eq!(code, 0);
    assert_eq!(
        result.uris.unwrap(),
        vec![
            format!("file://{}/first.txt", selected_dir.path().display()),
            format!("file://{}/nonutf8-%FF", selected_dir.path().display()),
        ]
    );
}

#[test]
fn save_files_result_rejects_missing_or_unsafe_filenames() {
    let missing = save_files_request(&PortalOptions::new(), "Save files");
    match missing {
        Err((code, results)) => {
            assert_eq!(code, 2);
            assert!(results.uris.is_none());
        }
        Ok(_) => panic!("missing files option accepted"),
    }

    let options = options_with(vec![(
        "files",
        OptionValue::ByteArrays(vec![b"../escape.txt\0".to_vec()]),
    )]);
    match save_files_request(&options, "Save files") {
        Err((code, results)) => {
            assert_eq!(code, 2);
            assert!(results.uris.is_none());
        }
        Ok(_) => panic!("unsafe file name accepted"),
    }
}

#[test]
fn save_files_requires_an_existing_directory() {
    let names = vec![b"a.txt".to_vec()];
    let (code, result) = save_files_response(Ok(vec![b"/tmp/file.txt".to_vec()]), false, &names);
    assert_eq!(code, 2);
    assert!(result.uris.is_none());
    let (code, result) =
        save_files_response(Err("Request cancelled".to_string()), false, &names);
    assert_eq!(code, 1);
    assert!(result.uris.is_none());
}

#[test]
fn build_uris_result_contains_string_array() {
    let result = build_uris_result(vec![
        "file:///tmp/a.txt".into(),
        "file:///tmp/file%20with%20space.txt".into(),
    ]);
    let uris = result.uris.unwrap();

    assert_eq!(
        uris,
        vec!["file:///tmp/a.txt", "file:///tmp/file%20with%20space.txt"]
    );
}

#[test]
fn response_codes_separate_cancellation_from_errors() {
    assert_eq!(response_code_for_error("No files selected"), 1);
    assert_eq!(response_code_for_error("Request cancelled"), 1);
    assert_eq!(response_code_for_error("Terminal exited with: exit status: 1"), 2);
    assert_eq!(response_code_for_error(""), 2);
}

#[test]
fn save_cancellation_does_not_fabricate_current_file_selection() {
    let options = options_with(vec![(
        "current_file",
        OptionValue::Bytes(b"/home/osso/Downloads/example.txt\0".to_vec()),
    )]);
    let save = save_file_request(&options, "Save");

    let (code, result) = uris_response(chooser_outcome(Ok(()), b"", save.multiple));

    assert_eq!(code, 1);
    assert!(result.uris.is_none());
}

#[test]
fn portal_request_close_cancels_interaction() {
    let cancellation = CancellationToken::new();
    let request = PortalRequest::new(cancellation.clone());

    request.close();

    assert!(cancellation.is_cancelled());
}

#[test]
fn request_close_ends_active_open_file_as_cancellation() {
    let cancellation = CancellationToken::new();
    let request = PortalRequest::new(cancellation.clone());
    let waiter = cancellation.clone();
    let mut polls = 0;
    let outcome = loop {
        if waiter.is_cancelled() {
            break Err(cancellation_error());
        }
        polls += 1;
        if polls == 3 {
            request.close();
        }
    };
    let (code, result) = uris_response(chooser_outcome(outcome, b"", false));

    assert_eq!(code, 1);
    assert!(result.uris.is_none());
}

#[test]
fn open_file_directory_request_rejects_file_paths() {
    let options = options_with(vec![("directory", OptionValue::Bool(true))]);
    let open = open_file_request(&options, "Pick folder");
    assert!(open.directory);

    let outcome = chooser_outcome(Ok(()), b"/tmp/file.txt\n", open.multiple);
    let checked = require_directories(outcome, open.directory, &vec![false]);
    assert_eq!(
        checked.clone().unwrap_err(),
        "Chooser returned a path that is not a directory: /tmp/file.txt"
    );
    let (code, result) = uris_response(checked);
    assert_eq!(code, 2);
    assert!(result.uris.is_none());

    let outcome = chooser_outcome(Ok(()), b"/tmp\n", open.multiple);
    let checked = require_directories(outcome, open.directory, &vec![true]);
    assert_eq!(uris_response(checked).0, 0);

    let outcome = chooser_outcome(Ok(()), b"/tmp/file.txt\n", false);
    assert!(require_directories(outcome, false, &vec![false]).is_ok());
}

#[test]
fn not_directory_error_names_the_path() {
    assert_eq!(
        not_directory_error_text("/tmp/file.txt"),
        "Chooser returned a path that is not a directory: /tmp/file.txt"
    );
}

#[test]
fn empty_array_reads_as_empty_bytes_and_empty_list() {
    let options = options_with(vec![("files", OptionValue::EmptyArray), ("current_folder", OptionValue::EmptyArray)]);
    assert_eq!(get_byte_arrays_option(&options, "files"), Some(vec![]));
    assert_eq!(get_bytes_option(&options, "current_folder"), Some(vec![]));
    match save_files_request(&options, "Save files") {
        Ok((_, names)) => assert!(names.is_empty()),
        Err(_) => panic!("an empty files list is a valid request"),
    }
}
