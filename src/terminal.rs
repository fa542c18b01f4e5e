use vstd::prelude::*;
use crate::entry::Node;
use crate::glob1env::{Glob1Env, read_result, error_text};
use crate::path::texts;
use crate::protocol::{is_white_space, white_space, has_prefix, strip_prefix};

verus! {

/// The screens of the shell.
#[derive(Clone, Copy, PartialEq, Eq, Structural, Debug)]
pub enum Page {
    Terminal,
    Settings,
    Glob1Env,
}

/// How many lines the terminal keeps.
pub const MAX_HISTORY_LINES: usize = 100;

/// The prompt shown before the input and before each command in the history.
pub const PROMPT: &'static str = "> ";

/// A line of the terminal: a command that was typed, a response, or a
/// response that opens a page when clicked.
#[derive(Clone, Debug)]
pub struct HistoryEntry {
    pub text: String,
    pub is_command: bool,
    pub action: Option<Page>,
}

/// The value of a line: its text, whether it is a command, and the page it
/// opens.
pub type Line = (Seq<char>, bool, Option<Page>);

impl HistoryEntry {
    pub open spec fn line(self) -> Line {
        (self.text@, self.is_command, self.action)
    }
}

impl Default for HistoryEntry {
    fn default() -> (r: HistoryEntry)
        ensures
            r.line() == (Seq::<char>::empty(), false, None::<Page>),
    {
        HistoryEntry { text: String::new(), is_command: false, action: None }
    }
}

/// The terminal: its lines, the input being typed, and whether the view is to
/// scroll to the last line.
#[derive(Clone, Debug)]
pub struct Terminal {
    pub history: std::collections::VecDeque<HistoryEntry>,
    pub current_input: String,
    pub scroll_to_bottom: bool,
}

impl Default for Terminal {
    fn default() -> (r: Terminal)
        ensures
            r.history@.len() == 0,
            r.current_input@.len() == 0,
            !r.scroll_to_bottom,
    {
        Terminal {
            history: std::collections::VecDeque::new(),
            current_input: String::new(),
            scroll_to_bottom: false,
        }
    }
}

/// What a command asks of the shell besides its lines.
#[derive(Clone, Copy, PartialEq, Eq, Structural, Debug)]
pub struct CommandEffect {
    /// The page to show next.
    pub page: Option<Page>,
    /// Leave the application.
    pub exit: bool,
    /// Shrink the window to its minimized form.
    pub minimize: bool,
    /// Print the command's space-separated words on the standard output.
    pub print_args: bool,
}

/// The values of a sequence of lines.
pub open spec fn lines_of(h: Seq<HistoryEntry>) -> Seq<Line> {
    h.map_values(|e: HistoryEntry| e.line())
}

/// A response line.
pub open spec fn response(t: Seq<char>) -> Line {
    (t, false, None)
}

/// The pieces of `s` between runs of white space, empty ones included.
pub open spec fn split_white(s: Seq<char>) -> Seq<Seq<char>>
    decreases s.len(),
{
    if s.len() == 0 {
        seq![Seq::empty()]
    } else {
        let p = split_white(s.drop_last());
        if is_white_space(s.last()) {
            p.push(Seq::empty())
        } else {
            p.update(p.len() - 1, p.last().push(s.last()))
        }
    }
}

/// The words of `s`: its maximal runs of characters that are not white space.
pub open spec fn words(s: Seq<char>) -> Seq<Seq<char>> {
    split_white(s).filter(|w: Seq<char>| w.len() > 0)
}

/// The words of `s`, in order.
pub fn split_words(s: &str) -> (r: Vec<String>)
    ensures
        texts(r@) == words(s@),
{
    let n = s.unicode_len();
    let ghost keep = |w: Seq<char>| w.len() > 0;
    let mut out: Vec<String> = Vec::new();
    let mut start: usize = 0;
    let mut i: usize = 0;
    let ghost mut done: Seq<Seq<char>> = Seq::empty();
    assert(s@.subrange(0, 0) =~= Seq::<char>::empty());
    assert(done.push(s@.subrange(0, 0)) =~= seq![Seq::<char>::empty()]);
    assert(texts(out@) =~= done.filter(keep)) by {
        reveal(Seq::filter);
    }
    while i < n
        invariant
            n == s@.len(),
            0 <= start <= i <= n,
            split_white(s@.subrange(0, i as int)) == done.push(s@.subrange(start as int, i as int)),
            texts(out@) == done.filter(keep),
            keep == (|w: Seq<char>| w.len() > 0),
        decreases n - i,
    {
        let c = s.get_char(i);
        assert(s@.subrange(0, i + 1).drop_last() =~= s@.subrange(0, i as int));
        assert(s@.subrange(0, i + 1).last() == c);
        if white_space(c) {
            let piece = s.substring_char(start, i);
            let ghost before = texts(out@);
            if start < i {
                out.push(String::from_str(piece));
                assert(texts(out@) =~= before.push(piece@));
            }
            proof {
                done.lemma_filter_push(piece@, keep);
                done = done.push(piece@);
            }
            start = i + 1;
            assert(s@.subrange(start as int, i + 1) =~= Seq::<char>::empty());
        } else {
            assert(s@.subrange(start as int, i + 1) =~= s@.subrange(start as int, i as int).push(
                c,
            ));
            assert(done.push(s@.subrange(start as int, i as int)).update(
                done.len() as int,
                s@.subrange(start as int, i + 1),
            ) =~= done.push(s@.subrange(start as int, i + 1)));
        }
        i = i + 1;
    }
    let piece = s.substring_char(start, n);
    let ghost before = texts(out@);
    if start < n {
        out.push(String::from_str(piece));
        assert(texts(out@) =~= before.push(piece@));
    }
    proof {
        done.lemma_filter_push(piece@, keep);
        assert(s@.subrange(0, n as int) =~= s@);
    }
    out
}

/// `a` and `b` hold the same text.
pub fn same_text(a: &str, b: &str) -> (r: bool)
    ensures
        r == (a@ == b@),
{
    if a.unicode_len() != b.unicode_len() {
        return false;
    }
    let r = strip_prefix(a, b).is_some();
    assert(a@.subrange(0, a@.len() as int) =~= a@);
    r
}

/// The lines that `help` adds.
pub open spec fn help_lines() -> Seq<Line> {
    seq![
        response("Available commands:"@),
        response("  help  - Display this help message"@),
        response("  clear - Clear terminal history"@),
        response("  exit  - Exit the application"@),
        response("  echo <text> - Echo text back to terminal"@),
        response("  time  - Display current date and time"@),
        response("  params  - Go to parameters"@),
        ("  ▶ Open Settings"@, false, Some(Page::Settings)),
        response("  env  - Go to environment"@),
        response("    rd < path > - Read a file"@),
        ("  ▶ Open Environment"@, false, Some(Page::Glob1Env)),
    ]
}

/// The text that `env rd path` shows: the file's content, or why it could not
/// be read.
pub open spec fn read_text(tree: Seq<Node>, path: Seq<char>) -> Seq<char> {
    match read_result(tree, path) {
        Ok(t) => t,
        Err(e) => error_text(e, path),
    }
}

/// The lines that the command `cmd` adds after its own line, given the
/// environment's tree and the local time `now`.
pub open spec fn reply(cmd: Seq<char>, tree: Seq<Node>, now: Seq<char>) -> Seq<Line> {
    if cmd == "help"@ {
        help_lines()
    } else if cmd == "exit"@ {
        seq![response("Goodbye!"@)]
    } else if cmd == "time"@ {
        seq![response("Current time: "@ + now)]
    } else if cmd == "clear"@ || cmd == "params"@ || cmd == "open"@ || cmd == "env"@ {
        seq![]
    } else if cmd == "minimize"@ {
        seq![response("Minimizing application..."@)]
    } else if has_prefix(cmd, "echo "@) {
        seq![response(cmd.subrange("echo "@.len() as int, cmd.len() as int))]
    } else if has_prefix(cmd, "env "@) {
        let args = words(cmd.subrange("env "@.len() as int, cmd.len() as int));
        if args.len() == 2 && args[0] == "rd"@ {
            seq![response(read_text(tree, args[1]))]
        } else {
            seq![
                response("  env  - Go to environment"@),
                response("    rd <path>            - Read a file"@),
            ]
        }
    } else {
        seq![
            response("Unknown command: '"@ + cmd + "'"@),
            response("Type 'help' for a list of available commands"@),
        ]
    }
}

/// What the command `cmd` asks of the shell besides its lines.
pub open spec fn effect(cmd: Seq<char>) -> CommandEffect {
    CommandEffect {
        page: if cmd == "params"@ {
            Some(Page::Settings)
        } else if cmd == "env"@ {
            Some(Page::Glob1Env)
        } else {
            None
        },
        exit: cmd == "exit"@,
        minimize: cmd == "minimize"@,
        print_args: cmd == "open"@,
    }
}

/// The last `n` lines of `h`.
pub open spec fn keep_last(h: Seq<Line>, n: nat) -> Seq<Line> {
    if h.len() > n {
        h.subrange(h.len() - n, h.len() as int)
    } else {
        h
    }
}

/// The lines after the command `cmd` ran on the lines `h`: `clear` leaves
/// none; any other command adds its own line and its reply, and only the last
/// `MAX_HISTORY_LINES` lines are kept.
pub open spec fn history_after(h: Seq<Line>, cmd: Seq<char>, tree: Seq<Node>, now: Seq<char>) -> Seq<
    Line,
> {
    if cmd == "clear"@ {
        seq![]
    } else {
        keep_last(
            h.push((PROMPT@ + cmd, true, None)) + reply(cmd, tree, now),
            MAX_HISTORY_LINES as nat,
        )
    }
}

impl Terminal {
    /// The values of the terminal's lines.
    pub open spec fn lines(self) -> Seq<Line> {
        lines_of(self.history@)
    }

    /// `after` is the terminal once the command typed in `before` has run on
    /// the tree `tree` at the local time `now`, and `e` what it asks of the
    /// shell.
    pub open spec fn ran(
        before: Terminal,
        after: Terminal,
        tree: Seq<Node>,
        now: Seq<char>,
        e: CommandEffect,
    ) -> bool {
        &&& after.lines() == history_after(before.lines(), before.current_input@, tree, now)
        &&& after.current_input@.len() == 0
        &&& after.scroll_to_bottom
        &&& e == effect(before.current_input@)
    }

    /// Adds a response line.
    pub fn add_response(&mut self, text: &str)
        ensures
            final(self).lines() == old(self).lines().push(response(text@)),
            final(self).current_input == old(self).current_input,
            final(self).scroll_to_bottom == old(self).scroll_to_bottom,
    {
        let ghost before = self.lines();
        self.history.push_back(
            HistoryEntry { text: String::from_str(text), is_command: false, action: None },
        );
        assert(self.lines() =~= before.push(response(text@)));
    }

    /// Adds a response line that opens `target_page` when clicked.
    pub fn add_clickable(&mut self, text: &str, target_page: Option<Page>)
        ensures
            final(self).lines() == old(self).lines().push((text@, false, target_page)),
            final(self).current_input == old(self).current_input,
            final(self).scroll_to_bottom == old(self).scroll_to_bottom,
    {
        let ghost before = self.lines();
        self.history.push_back(
            HistoryEntry { text: String::from_str(text), is_command: false, action: target_page },
        );
        assert(self.lines() =~= before.push((text@, false, target_page)));
    }

    /// Shows the greeting when the terminal has no line yet: the application's
    /// name and `version`, a hint and a blank line.
    pub fn ensure_greeting(&mut self, version: &str)
        ensures
            old(self).lines().len() == 0 ==> final(self).lines() == seq![
                response("Welcome to NWTZUI v"@ + version@),
                response("Type 'help' for a list of commands"@),
                response(""@),
            ],
            old(self).lines().len() > 0 ==> final(self).lines() == old(self).lines(),
            final(self).current_input == old(self).current_input,
            final(self).scroll_to_bottom == old(self).scroll_to_bottom,
    {
        if self.history.len() == 0 {
            let welcome = String::from_str("Welcome to NWTZUI v").concat(version);
            self.add_response(welcome.as_str());
            self.add_response("Type 'help' for a list of commands");
            self.add_response("");
            assert(self.lines() =~= seq![
                response("Welcome to NWTZUI v"@ + version@),
                response("Type 'help' for a list of commands"@),
                response(""@),
            ]);
        }
    }

    /// Adds the lines of `help`.
    fn add_help(&mut self)
        ensures
            final(self).lines() == old(self).lines() + help_lines(),
            final(self).current_input == old(self).current_input,
            final(self).scroll_to_bottom == old(self).scroll_to_bottom,
    {
        let ghost h = self.lines();
        self.add_response("Available commands:");
        self.add_response("  help  - Display this help message");
        self.add_response("  clear - Clear terminal history");
        self.add_response("  exit  - Exit the application");
        self.add_response("  echo <text> - Echo text back to terminal");
        self.add_response("  time  - Display current date and time");
        self.add_response("  params  - Go to parameters");
        self.add_clickable("  ▶ Open Settings", Some(Page::Settings));
        self.add_response("  env  - Go to environment");
        self.add_response("    rd < path > - Read a file");
        self.add_clickable("  ▶ Open Environment", Some(Page::Glob1Env));
        assert(self.lines() =~= h + help_lines());
    }

    /// Adds the reply of a command that starts with `env `; `rest` is what
    /// follows that prefix.
    fn env_command(&mut self, env: &Glob1Env, rest: &str)
        ensures
            final(self).lines() == old(self).lines() + {
                let args = words(rest@);
                if args.len() == 2 && args[0] == "rd"@ {
                    seq![response(read_text(env.tree(), args[1]))]
                } else {
                    seq![
                        response("  env  - Go to environment"@),
                        response("    rd <path>            - Read a file"@),
                    ]
                }
            },
            final(self).current_input == old(self).current_input,
            final(self).scroll_to_bottom == old(self).scroll_to_bottom,
    {
        let ghost h = self.lines();
        let args = split_words(rest);
        if args.len() == 2 && same_text(args[0].as_str(), "rd") {
            assert(texts(args@)[0] == args@[0]@ && texts(args@)[1] == args@[1]@);
            let path = args[1].as_str();
            let out = match env.rd(path) {
                Ok(text) => text,
                Err(e) => e.message(path),
            };
            self.add_response(out.as_str());
            assert(self.lines() =~= h + seq![response(read_text(env.tree(), args@[1]@))]);
        } else {
            proof {
                if texts(args@).len() == 2 {
                    assert(texts(args@)[0] == args@[0]@);
                }
            }
            self.add_response("  env  - Go to environment");
            self.add_response("    rd <path>            - Read a file");
            assert(self.lines() =~= h + seq![
                response("  env  - Go to environment"@),
                response("    rd <path>            - Read a file"@),
            ]);
        }
    }

    /// Runs the command typed in the input against `env`, `now` being the
    /// local time as `YYYY-MM-DD HH:MM:SS` (only `time` shows it), then clears
    /// the input and keeps the last `MAX_HISTORY_LINES` lines.
    pub fn process_command(&mut self, env: &Glob1Env, now: &str) -> (e: CommandEffect)
        ensures
            Terminal::ran(*old(self), *final(self), env.tree(), now@, e),
    {
        let command = self.current_input.clone();
        let cmd = command.as_str();
        let ghost h0 = self.lines();
        let prompt = String::from_str(PROMPT).concat(cmd);
        self.history.push_back(HistoryEntry { text: prompt, is_command: true, action: None });
        assert(self.lines() =~= h0.push((PROMPT@ + cmd@, true, None)));
        let ghost h1 = self.lines();
        let mut page: Option<Page> = None;
        let mut exit = false;
        let mut minimize = false;
        let mut print_args = false;
        proof {
            reveal_strlit("echo ");
            reveal_strlit("env ");
            reveal_strlit("help");
            reveal_strlit("clear");
            reveal_strlit("exit");
            reveal_strlit("time");
            reveal_strlit("params");
            reveal_strlit("open");
            reveal_strlit("minimize");
            reveal_strlit("env");
            assert("help"@[0] != "exit"@[0]);
            assert("clear"@.len() != "exit"@.len());
            assert("help"@[0] != "open"@[0]);
            assert("exit"@[0] != "open"@[0]);
            assert("time"@[0] != "open"@[0]);
            assert("clear"@.len() != "open"@.len());
            assert("params"@.len() != "open"@.len());
        }
        if same_text(cmd, "help") {
            self.add_help();
        } else if same_text(cmd, "clear") {
            self.history.clear();
        } else if same_text(cmd, "exit") {
            self.add_response("Goodbye!");
            exit = true;
        } else if same_text(cmd, "time") {
            let line = String::from_str("Current time: ").concat(now);
            self.add_response(line.as_str());
        } else if same_text(cmd, "params") {
            page = Some(Page::Settings);
        } else if same_text(cmd, "open") {
            print_args = true;
        } else if same_text(cmd, "minimize") {
            self.add_response("Minimizing application...");
            minimize = true;
        } else if same_text(cmd, "env") {
            page = Some(Page::Glob1Env);
        } else {
            match strip_prefix(cmd, "echo ") {
                Some(rest) => {
                    self.add_response(rest);
                },
                None => match strip_prefix(cmd, "env ") {
                    Some(rest) => {
                        self.env_command(env, rest);
                    },
                    None => {
                        let unknown = String::from_str("Unknown command: '").concat(cmd).concat(
                            "'",
                        );
                        self.add_response(unknown.as_str());
                        self.add_response("Type 'help' for a list of available commands");
                    },
                },
            }
        }
        proof {
            if cmd@ == "clear"@ {
                assert(self.lines() =~= Seq::<Line>::empty());
            } else {
                assert(self.lines() =~= h1 + reply(cmd@, env.tree(), now@));
            }
        }
        let ghost full = self.lines();
        self.current_input = String::new();
        self.scroll_to_bottom = true;
        while self.history.len() > MAX_HISTORY_LINES
            invariant
                self.lines() == full.subrange(full.len() - self.history@.len(), full.len() as int),
                self.history@.len() <= full.len(),
                full.len() <= MAX_HISTORY_LINES ==> self.history@.len() == full.len(),
                full.len() > MAX_HISTORY_LINES ==> self.history@.len() >= MAX_HISTORY_LINES,
                self.current_input@.len() == 0,
                self.scroll_to_bottom,
            decreases self.history@.len(),
        {
            let ghost before = self.lines();
            self.history.pop_front();
            assert(self.lines() =~= before.subrange(1, before.len() as int));
        }
        proof {
            if full.len() <= MAX_HISTORY_LINES {
                assert(full.subrange(0, full.len() as int) =~= full);
            }
        }
        CommandEffect { page, exit, minimize, print_args }
    }
}

} // verus!
