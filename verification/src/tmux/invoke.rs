//! Running tmux: on which server, through which program, and what to make of its reply.

use vstd::prelude::*;
use vstd::string::*;

use crate::errors::{Error, ErrorView};
use crate::outside;
use crate::text;

verus! {

/// The socket that an override, or else the environment, gives; an empty one counts as none, and
/// an empty override does not fall back on the environment.
pub open spec fn resolved_socket(socket: Option<Seq<char>>, env: Option<Seq<char>>) -> Option<
    Seq<char>,
> {
    match socket {
        Some(given) => if given.len() == 0 {
            None
        } else {
            Some(given)
        },
        None => match env {
            Some(given) => if given.len() == 0 {
                None
            } else {
                Some(given)
            },
            None => None,
        },
    }
}

/// The arguments that point tmux to a socket.
pub open spec fn socket_args(socket: Option<Seq<char>>) -> Seq<Seq<char>> {
    match socket {
        Some(path) => seq!["-S"@, path],
        None => Seq::empty(),
    }
}

/// The arguments of `ssh` that a connection string stands for, or why it is refused. A blank
/// string, and one without words, stand for no connection.
pub open spec fn ssh_words(value: Option<Seq<char>>) -> Result<
    Option<Seq<Seq<char>>>,
    ErrorView,
> {
    match value {
        Some(line) => if text::trimmed(line).len() == 0 {
            Ok(None)
        } else {
            match outside::shell_words_of(line) {
                Some(words) => if words.len() == 0 {
                    Ok(None)
                } else {
                    Ok(Some(words))
                },
                None => Err(
                    ErrorView::InvalidArgument(
                        "invalid TMUX_MCP_SSH: "@ + "missing closing quote"@,
                    ),
                ),
            }
        },
        None => Ok(None),
    }
}

/// A program and its arguments.
#[derive(Debug, Clone, PartialEq, Eq)]
pub struct CommandLine {
    pub program: String,
    pub args: Vec<String>,
}

/// A program and its arguments, as characters.
#[verifier::ext_equal]
pub struct LineView {
    pub program: Seq<char>,
    pub args: Seq<Seq<char>>,
}

impl View for CommandLine {
    type V = LineView;

    open spec fn view(&self) -> LineView {
        LineView { program: self.program@, args: text::texts(self.args@) }
    }
}

/// The command line that runs tmux with arguments: directly, or on another machine.
pub open spec fn tmux_line(
    socket: Option<Seq<char>>,
    ssh: Option<Seq<Seq<char>>>,
    args: Seq<Seq<char>>,
) -> LineView {
    match ssh {
        Some(words) => LineView {
            program: "ssh"@,
            args: words + seq!["tmux"@] + socket_args(socket) + args,
        },
        None => LineView { program: "tmux"@, args: socket_args(socket) + args },
    }
}

/// Resolves the tmux socket path from an override, or else from what the environment variable
/// `TMUX_MCP_SOCKET` holds.
pub fn resolve_socket(socket: Option<&str>, env: Option<&str>) -> (r: Option<String>)
    ensures
        text::opt_text(r) == resolved_socket(text::opt_str(socket), text::opt_str(env)),
{
    match socket {
        Some(given) => if given.is_empty() {
            None
        } else {
            Some(given.to_owned())
        },
        None => match env {
            Some(given) => if given.is_empty() {
                None
            } else {
                Some(given.to_owned())
            },
            None => None,
        },
    }
}

/// The arguments that point tmux to the resolved socket.
pub fn get_socket_args(socket: Option<&str>, env: Option<&str>) -> (args: Vec<String>)
    ensures
        text::texts(args@) == socket_args(
            resolved_socket(text::opt_str(socket), text::opt_str(env)),
        ),
{
    let mut args: Vec<String> = Vec::new();
    proof {
        assert(text::texts(args@) =~= Seq::<Seq<char>>::empty());
    }
    if let Some(path) = resolve_socket(socket, env) {
        text::push_text(&mut args, "-S");
        text::push_text(&mut args, path.as_str());
        proof {
            assert(text::texts(args@) =~= seq!["-S"@, path@]);
        }
    }
    args
}

/// Splits the connection string that the environment variable `TMUX_MCP_SSH` holds into the
/// arguments of `ssh`.
pub fn get_ssh_args(value: Option<&str>) -> (r: Result<Option<Vec<String>>, Error>)
    ensures
        match r {
            Ok(Some(words)) => ssh_words(text::opt_str(value)) == Ok::<
                Option<Seq<Seq<char>>>,
                ErrorView,
            >(Some(text::texts(words@))),
            Ok(None) => ssh_words(text::opt_str(value)) == Ok::<
                Option<Seq<Seq<char>>>,
                ErrorView,
            >(None),
            Err(error) => ssh_words(text::opt_str(value)) == Err::<
                Option<Seq<Seq<char>>>,
                ErrorView,
            >(error@),
        },
{
    match value {
        Some(line) => {
            if text::trim(line).as_str().is_empty() {
                return Ok(None);
            }
            match shell_words::split(line) {
                Ok(words) => {
                    proof {
                        assert(text::texts(words@).len() == words@.len());
                    }
                    if words.len() == 0 {
                        Ok(None)
                    } else {
                        Ok(Some(words))
                    }
                },
                Err(error) => {
                    let mut message = "invalid TMUX_MCP_SSH: ".to_owned();
                    message.append(outside::shell_error_text(&error).as_str());
                    Err(Error::InvalidArgument { message })
                },
            }
        },
        None => Ok(None),
    }
}

/// Whether tmux runs on another machine.
pub fn ssh_enabled(value: Option<&str>) -> (r: Result<bool, Error>)
    ensures
        match r {
            Ok(enabled) => {
                &&& ssh_words(text::opt_str(value)) is Ok
                &&& enabled == (ssh_words(text::opt_str(value))->Ok_0 is Some)
            },
            Err(error) => ssh_words(text::opt_str(value)) == Err::<
                Option<Seq<Seq<char>>>,
                ErrorView,
            >(error@),
        },
{
    match get_ssh_args(value) {
        Ok(words) => Ok(words.is_some()),
        Err(error) => Err(error),
    }
}

/// Makes the command line that runs tmux with arguments. `socket` and `env_socket` are the
/// override and what the environment holds; `env_ssh` is the connection string.
pub fn command_line(
    args: &Vec<String>,
    socket: Option<&str>,
    env_socket: Option<&str>,
    env_ssh: Option<&str>,
) -> (r: Result<CommandLine, Error>)
    ensures
        match r {
            Ok(line) => {
                let socket = resolved_socket(text::opt_str(socket), text::opt_str(env_socket));
                &&& ssh_words(text::opt_str(env_ssh)) is Ok
                &&& line@ == tmux_line(
                    socket,
                    ssh_words(text::opt_str(env_ssh))->Ok_0,
                    text::texts(args@),
                )
            },
            Err(error) => ssh_words(text::opt_str(env_ssh)) == Err::<
                Option<Seq<Seq<char>>>,
                ErrorView,
            >(error@),
        },
{
    let socket_args = get_socket_args(socket, env_socket);
    match get_ssh_args(env_ssh) {
        Ok(Some(words)) => {
            let mut all = words;
            let ghost first = text::texts(all@);
            text::push_text(&mut all, "tmux");
            proof {
                assert(first.push("tmux"@) =~= first + seq!["tmux"@]);
            }
            text::push_all(&mut all, &socket_args);
            text::push_all(&mut all, args);
            Ok(CommandLine { program: "ssh".to_owned(), args: all })
        },
        Ok(None) => {
            let mut all = socket_args;
            text::push_all(&mut all, args);
            Ok(CommandLine { program: "tmux".to_owned(), args: all })
        },
        Err(error) => Err(error),
    }
}

/// The bytes of a reply, or the error of a failure. Where tmux succeeds and writes nothing to
/// its standard output, what it writes to its standard error counts.
pub open spec fn reply_bytes(success: bool, stdout: Seq<u8>, stderr: Seq<u8>) -> Result<
    Seq<u8>,
    ErrorView,
> {
    if !success {
        Err(ErrorView::Tmux(text::trimmed(outside::lossy_text(stderr))))
    } else if stdout.len() > 0 {
        Ok(stdout)
    } else {
        Ok(stderr)
    }
}

/// Takes the bytes of a reply.
pub fn reply_of(success: bool, stdout: Vec<u8>, stderr: Vec<u8>) -> (r: Result<Vec<u8>, Error>)
    ensures
        match r {
            Ok(bytes) => reply_bytes(success, stdout@, stderr@) == Ok::<Seq<u8>, ErrorView>(bytes@),
            Err(error) => reply_bytes(success, stdout@, stderr@) == Err::<Seq<u8>, ErrorView>(
                error@,
            ),
        },
{
    if success {
        if stdout.len() > 0 {
            Ok(stdout)
        } else {
            Ok(stderr)
        }
    } else {
        let message = text::trim(outside::decode_lossy(stderr.as_slice()).as_str());
        Err(Error::Tmux { message })
    }
}

/// Takes the outcome of a command whose output went elsewhere.
pub fn outcome_of(success: bool, stderr: &[u8]) -> (r: Result<(), Error>)
    ensures
        match r {
            Ok(_) => success,
            Err(error) => !success && error@ == ErrorView::Tmux(
                text::trimmed(outside::lossy_text(stderr@)),
            ),
        },
{
    if success {
        Ok(())
    } else {
        let message = text::trim(outside::decode_lossy(stderr).as_str());
        Err(Error::Tmux { message })
    }
}

/// The text of a reply, without the white space at its ends.
pub fn reply_text(bytes: &[u8]) -> (r: String)
    ensures
        r@ == text::trimmed(outside::lossy_text(bytes@)),
{
    text::trim(outside::decode_lossy(bytes).as_str())
}

/// The text of a buffer, as it is.
pub fn buffer_text(bytes: &[u8]) -> (r: String)
    ensures
        r@ == outside::lossy_text(bytes@),
{
    outside::decode_lossy(bytes)
}

/// Whether a failure is one of tmux with certain words in its message.
pub open spec fn failed_with(error: ErrorView, words: Seq<char>) -> bool {
    match error {
        ErrorView::Tmux(message) => text::occurs_in(message, words),
        _ => false,
    }
}

/// Whether a failure is one of tmux with certain words in its message.
pub fn error_says(error: &Error, words: &str) -> (r: bool)
    ensures
        r == failed_with(error@, words@),
{
    match error {
        Error::Tmux { message } => text::contains(message.as_str(), words),
        _ => false,
    }
}

/// Whether a tmux server is running, by the outcome of listing its sessions. A server without
/// sessions counts as running.
pub fn running_from_reply(reply: Result<String, Error>) -> (r: Result<bool, Error>)
    ensures
        match reply {
            Ok(_) => r == Ok::<bool, Error>(true),
            Err(error) => if failed_with(error@, "no server running"@) {
                r == Ok::<bool, Error>(false)
            } else if failed_with(error@, "no sessions"@) {
                r == Ok::<bool, Error>(true)
            } else {
                r == Err::<bool, Error>(error)
            },
        },
{
    match reply {
        Ok(_) => Ok(true),
        Err(error) => if error_says(&error, "no server running") {
            Ok(false)
        } else if error_says(&error, "no sessions") {
            Ok(true)
        } else {
            Err(error)
        },
    }
}

/// Law: an override decides alone; the environment counts only where there is none.
pub proof fn law_override_first(
    given: Seq<char>,
    env: Option<Seq<char>>,
    other: Option<Seq<char>>,
)
    ensures
        resolved_socket(Some(given), env) == resolved_socket(Some(given), other),
        resolved_socket(Some(given), env) == resolved_socket(None, Some(given)),
{
}

/// Law: resolving a resolved socket again, whatever the environment holds by then, changes
/// nothing.
pub proof fn law_resolve_again(
    socket: Option<Seq<char>>,
    env: Option<Seq<char>>,
    later_env: Option<Seq<char>>,
)
    requires
        resolved_socket(socket, env) is Some,
    ensures
        resolved_socket(resolved_socket(socket, env), later_env) == resolved_socket(socket, env),
{
}

/// Law: which socket counts. An override counts alone: it is the socket where it is not empty, and
/// stands for none where it is. Without an override the same holds of the environment.
pub proof fn law_socket(path: Seq<char>, env: Option<Seq<char>>)
    ensures
        path.len() > 0 ==> resolved_socket(Some(path), env) == Some(path),
        path.len() > 0 ==> resolved_socket(None, Some(path)) == Some(path),
        path.len() == 0 ==> resolved_socket(Some(path), env) is None,
        path.len() == 0 ==> resolved_socket(None, Some(path)) is None,
        resolved_socket(None, None) is None,
{
}

/// Law: the command line. The arguments stand at its end, as they are. Directly before them stands
/// the socket, with its flag, where there is one. On this machine that is all, and the program is
/// tmux; on another one the program is ssh, with the words of the connection and tmux first.
pub proof fn law_command_line(
    socket: Option<Seq<char>>,
    ssh: Option<Seq<Seq<char>>>,
    args: Seq<Seq<char>>,
)
    ensures
        ({
            let line = tmux_line(socket, ssh, args);
            let words = if ssh is Some {
                ssh->0.len() + 1int
            } else {
                0
            };
            let flags = if socket is Some {
                2
            } else {
                0int
            };
            &&& line.program == if ssh is Some {
                "ssh"@
            } else {
                "tmux"@
            }
            &&& line.args.len() == words + flags + args.len()
            &&& forall|i: int|
                0 <= i < args.len() ==> line.args[words + flags + i] == #[trigger] args[i]
            &&& socket is Some ==> line.args[words] == "-S"@ && line.args[words + 1]
                == socket->0
            &&& ssh is Some ==> line.args[words - 1] == "tmux"@
            &&& ssh is Some ==> forall|i: int|
                0 <= i < ssh->0.len() ==> line.args[i] == #[trigger] ssh->0[i]
        }),
{
}

/// Law: what a connection string stands for: none where it is absent or blank; otherwise its words
/// by the rules of the shell, none where it has none, and an error where they cannot be told.
pub proof fn law_connection(line: Seq<char>)
    ensures
        ssh_words(None) == Ok::<Option<Seq<Seq<char>>>, ErrorView>(None),
        text::trimmed(line).len() == 0 ==> ssh_words(Some(line)) == Ok::<
            Option<Seq<Seq<char>>>,
            ErrorView,
        >(None),
        text::trimmed(line).len() > 0 ==> match outside::shell_words_of(line) {
            Some(words) => {
                &&& words.len() > 0 ==> ssh_words(Some(line)) == Ok::<
                    Option<Seq<Seq<char>>>,
                    ErrorView,
                >(Some(words))
                &&& words.len() == 0 ==> ssh_words(Some(line)) == Ok::<
                    Option<Seq<Seq<char>>>,
                    ErrorView,
                >(None)
            },
            None => ssh_words(Some(line)) is Err,
        },
{
}

/// Law: what counts as the reply of tmux: what it wrote to its standard output, or, where that is
/// nothing, to its standard error. Where it failed, what it wrote to its standard error is the
/// message, without white space at its ends.
pub proof fn law_reply(stdout: Seq<u8>, stderr: Seq<u8>)
    ensures
        stdout.len() > 0 ==> reply_bytes(true, stdout, stderr) == Ok::<Seq<u8>, ErrorView>(stdout),
        stdout.len() == 0 ==> reply_bytes(true, stdout, stderr) == Ok::<Seq<u8>, ErrorView>(stderr),
        reply_bytes(false, stdout, stderr) == Err::<Seq<u8>, ErrorView>(
            ErrorView::Tmux(text::trimmed(outside::lossy_text(stderr))),
        ),
{
}

/// Law: a failure counts as one with certain words exactly where it is one of tmux and its message
/// holds the words.
pub proof fn law_failed_with(message: Seq<char>, words: Seq<char>, before: Seq<char>)
    ensures
        failed_with(ErrorView::Tmux(before + words + message), words),
        failed_with(ErrorView::Tmux(message), words) ==> exists|i: int|
            0 <= i <= message.len() - words.len() && #[trigger] message.subrange(
                i,
                i + words.len(),
            ) == words,
        !failed_with(ErrorView::InvalidArgument(message), words),
        !failed_with(ErrorView::Parse(message), words),
{
    let whole = before + words + message;
    let at = before.len() as int;
    assert(whole.subrange(at, at + words.len()) =~= words);
    assert(text::occurs_at(whole, words, at));
    if failed_with(ErrorView::Tmux(message), words) {
        let i = choose|i: int| #[trigger] text::occurs_at(message, words, i);
        assert(message.subrange(i, i + words.len()) == words);
    }
}

} // verus!
