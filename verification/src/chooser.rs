//! The chooser interaction: the command line that runs the chooser in a
//! terminal, the reading and checking of what the chooser wrote, and the
//! portal response for each FileChooser method.

use vstd::prelude::*;
use vstd::utf8::encode_utf8;
use crate::config::{command_words, parse_command, Config};
use crate::paths::copy_bytes;
use crate::text::{append_all, chars_of, string_of, texts};

verus! {

/// One argument of a command line: text, or raw bytes such as a path.
#[derive(Debug)]
pub enum CommandArg {
    Text(String),
    Bytes(Vec<u8>),
}

impl View for CommandArg {
    type V = Seq<u8>;

    /// The bytes that the process receives.
    open spec fn view(&self) -> Seq<u8> {
        match self {
            CommandArg::Text(s) => encode_utf8(s@),
            CommandArg::Bytes(b) => b@,
        }
    }
}

/// The bytes of each argument.
pub open spec fn args_view(args: Seq<CommandArg>) -> Seq<Seq<u8>> {
    args.map_values(|a: CommandArg| a@)
}

/// The UTF-8 bytes of some words.
pub open spec fn encoded_words(words: Seq<Seq<char>>) -> Seq<Seq<u8>> {
    words.map_values(|w: Seq<char>| encode_utf8(w))
}

/// A copy of an argument.
pub fn copy_arg(a: &CommandArg) -> (r: CommandArg)
    ensures
        r@ == a@,
{
    match a {
        CommandArg::Text(s) => CommandArg::Text(s.clone()),
        CommandArg::Bytes(b) => CommandArg::Bytes(copy_bytes(b.as_slice())),
    }
}

/// What a chooser run is asked for.
pub struct ChooserRequest {
    pub title: String,
    pub start_path: Option<Vec<u8>>,
    /// Several paths may be chosen.
    pub multiple: bool,
    /// Every chosen path must be an existing directory.
    pub directory: bool,
}

/// The FileChooser backend with its configuration.
pub struct FileChooser {
    pub config: Config,
}

/// The chooser's words, when its command string is valid.
pub open spec fn chooser_words(config: Config) -> Option<Seq<Seq<char>>> {
    match command_words(config.filechooser.chooser@, "Chooser"@) {
        Ok(words) => Some(words),
        Err(_) => None,
    }
}

/// The chooser's command line: its words, the last one rewritten as
/// `word=OUTPUT`, then the start directory.
pub open spec fn chooser_args(words: Seq<Seq<char>>, out_path: Seq<char>, start: Seq<u8>) -> Seq<
    Seq<u8>,
> {
    encoded_words(words.drop_last()).push(
        encode_utf8(words.last() + "="@ + out_path),
    ).push(start)
}

/// The terminal's command line: program and arguments, then the title, `--`
/// and the chooser's command line.
pub open spec fn terminal_args(
    terminal_words: Seq<Seq<char>>,
    title: Seq<char>,
    chooser: Seq<Seq<u8>>,
) -> Seq<Seq<u8>> {
    encoded_words(terminal_words) + seq![encode_utf8(title), encode_utf8("--"@)] + chooser
}

/// Where the chooser starts: the requested path, else the default directory.
pub open spec fn start_path_of(config: Config, request: ChooserRequest) -> Seq<u8> {
    match request.start_path {
        Some(p) => p@,
        None => encode_utf8(config.filechooser.default_dir@),
    }
}

fn text_arg(s: &str) -> (a: CommandArg)
    ensures
        a@ == encode_utf8(s@),
{
    CommandArg::Text(string_of(chars_of(s).as_slice()))
}

impl FileChooser {
    pub fn new(config: Config) -> (f: Self)
        ensures
            f.config == config,
    {
        FileChooser { config }
    }

    /// The chooser's command line for an output file and a start directory.
    /// The chooser command must be valid, as `Config::validate` checks.
    pub fn build_chooser_args(&self, out_path: &str, start: &[u8]) -> (args: Vec<CommandArg>)
        requires
            chooser_words(self.config) is Some,
        ensures
            args_view(args@) == chooser_args(chooser_words(self.config)->0, out_path@, start@),
            args@.len() >= 2,
    {
        let parsed = parse_command(self.config.filechooser.chooser.as_str(), "Chooser");
        let words = match parsed {
            Ok(words) => words,
            Err(_) => {
                proof {
                    assert(false);
                }
                Vec::new()
            },
        };
        let ghost w = texts(words@);
        let n = words.len();
        let mut args: Vec<CommandArg> = Vec::new();
        let mut i: usize = 0;
        while i + 1 < n
            invariant
                n == words@.len() >= 1,
                w == texts(words@),
                i < n,
                args_view(args@) == encoded_words(w.take(i as int)),
            decreases n - i,
        {
            let ghost prev = args@;
            let word = words[i].clone();
            proof {
                assert(word@ == w[i as int]);
            }
            args.push(CommandArg::Text(word));
            proof {
                assert(args@.last()@ == encode_utf8(w[i as int]));
                assert(args_view(args@) =~= args_view(prev).push(encode_utf8(w[i as int])));
                assert(w.take(i + 1) =~= w.take(i as int).push(w[i as int]));
                assert(encoded_words(w.take(i + 1)) =~= encoded_words(w.take(i as int)).push(
                    encode_utf8(w[i as int]),
                ));
            }
            i = i + 1;
        }
        let mut last = chars_of(words[n - 1].as_str());
        append_all(&mut last, &chars_of("="));
        append_all(&mut last, &chars_of(out_path));
        args.push(CommandArg::Text(string_of(last.as_slice())));
        args.push(CommandArg::Bytes(copy_bytes(start)));
        proof {
            assert(w.take(n - 1) =~= w.drop_last());
            assert(w.last() == words@[n - 1]@);
            assert(args_view(args@) =~= chooser_args(w, out_path@, start@));
        }
        args
    }

    /// Where the chooser starts: the requested path, else the configured
    /// default directory.
    pub fn start_directory(&self, request: &ChooserRequest) -> (p: Vec<u8>)
        ensures
            p@ == start_path_of(self.config, *request),
    {
        match &request.start_path {
            Some(path) => copy_bytes(path.as_slice()),
            None => copy_bytes(self.config.filechooser.default_dir.as_str().as_bytes()),
        }
    }

    /// The full command line of a chooser run that writes to `out_path`:
    /// none when the chooser command is invalid (which `Config::validate`
    /// rules out), else the terminal's command line or its error.
    pub fn terminal_command(&self, request: &ChooserRequest, out_path: &str) -> (r: Option<
        Result<Vec<CommandArg>, String>,
    >)
        ensures
            r is None <==> chooser_words(self.config) is None,
            r matches Some(Ok(args)) ==> command_words(self.config.filechooser.terminal@, "Terminal"@)
                matches Ok(words) && args_view(args@) == terminal_args(
                words,
                request.title@,
                chooser_args(
                    chooser_words(self.config)->0,
                    out_path@,
                    start_path_of(self.config, *request),
                ),
            ),
            r matches Some(Err(e)) ==> command_words(self.config.filechooser.terminal@, "Terminal"@)
                == Err::<Seq<Seq<char>>, Seq<char>>(e@),
    {
        match parse_command(self.config.filechooser.chooser.as_str(), "Chooser") {
            Err(_) => return None,
            Ok(_) => {},
        }
        let start = self.start_directory(request);
        let chooser = self.build_chooser_args(out_path, start.as_slice());
        Some(self.build_terminal_command(request.title.as_str(), &chooser))
    }

    /// The terminal's command line around the chooser's, program first; an
    /// invalid terminal command is an error.
    pub fn build_terminal_command(&self, title: &str, chooser: &Vec<CommandArg>) -> (r: Result<
        Vec<CommandArg>,
        String,
    >)
        requires
            chooser@.len() >= 1,
        ensures
            match r {
                Ok(args) => command_words(self.config.filechooser.terminal@, "Terminal"@) matches Ok(
                    words,
                ) && args_view(args@) == terminal_args(words, title@, args_view(chooser@)),
                Err(e) => command_words(self.config.filechooser.terminal@, "Terminal"@) == Err::<
                    Seq<Seq<char>>,
                    Seq<char>,
                >(e@),
            },
    {
        let words = match parse_command(self.config.filechooser.terminal.as_str(), "Terminal") {
            Ok(words) => words,
            Err(e) => return Err(e),
        };
        let ghost w = texts(words@);
        let mut args: Vec<CommandArg> = Vec::new();
        let mut i: usize = 0;
        while i < words.len()
            invariant
                i <= words@.len(),
                w == texts(words@),
                args_view(args@) == encoded_words(w.take(i as int)),
            decreases words@.len() - i,
        {
            let ghost prev = args@;
            let word = words[i].clone();
            proof {
                assert(word@ == w[i as int]);
            }
            args.push(CommandArg::Text(word));
            proof {
                assert(args@.last()@ == encode_utf8(w[i as int]));
                assert(args_view(args@) =~= args_view(prev).push(encode_utf8(w[i as int])));
                assert(w.take(i + 1) =~= w.take(i as int).push(w[i as int]));
                assert(encoded_words(w.take(i + 1)) =~= encoded_words(w.take(i as int)).push(
                    encode_utf8(w[i as int]),
                ));
            }
            i = i + 1;
        }
        args.push(text_arg(title));
        args.push(text_arg("--"));
        let ghost head = args_view(args@);
        let mut j: usize = 0;
        while j < chooser.len()
            invariant
                j <= chooser@.len(),
                args_view(args@) == head + args_view(chooser@).take(j as int),
            decreases chooser@.len() - j,
        {
            let ghost prev = args@;
            args.push(copy_arg(&chooser[j]));
            proof {
                assert(args_view(args@) =~= args_view(prev).push(chooser@[j as int]@));
                assert(args_view(chooser@).take(j + 1) =~= args_view(chooser@).take(j as int).push(
                    chooser@[j as int]@,
                ));
                assert(args_view(args@) =~= head + args_view(chooser@).take(j + 1));
            }
            j = j + 1;
        }
        proof {
            assert(w.take(w.len() as int) =~= w);
            assert(args_view(chooser@).take(chooser@.len() as int) =~= args_view(chooser@));
            assert(args_view(args@) =~= terminal_args(w, title@, args_view(chooser@)));
        }
        Ok(args)
    }
}

} // verus!
