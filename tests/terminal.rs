use nwtzui::counter::{Action, State};
use nwtzui::glob1env::init_system;
use nwtzui::terminal::{split_words, CommandEffect, HistoryEntry, Page, Terminal, MAX_HISTORY_LINES};

fn run(t: &mut Terminal, cmd: &str, now: &str) -> CommandEffect {
    let env = init_system();
    t.current_input = cmd.to_string();
    t.process_command(&env, now)
}

fn texts(t: &Terminal) -> Vec<String> {
    t.history.iter().map(|e| e.text.clone()).collect()
}

#[test]
fn help_lists_commands_and_links() {
    let mut t = Terminal::default();
    let e = run(&mut t, "help", "");
    assert_eq!(e, CommandEffect { page: None, exit: false, minimize: false, print_args: false });
    assert_eq!(t.history.len(), 12);
    assert_eq!(t.history[0].text, "> help");
    assert!(t.history[0].is_command);
    assert_eq!(t.history[1].text, "Available commands:");
    assert_eq!(t.history[8].action, Some(Page::Settings));
    assert_eq!(t.history[11].action, Some(Page::Glob1Env));
    assert!(t.current_input.is_empty());
    assert!(t.scroll_to_bottom);
}

#[test]
fn clear_empties_history() {
    let mut t = Terminal::default();
    run(&mut t, "help", "");
    run(&mut t, "clear", "");
    assert!(t.history.is_empty());
}

#[test]
fn echo_repeats_text() {
    let mut t = Terminal::default();
    run(&mut t, "echo hello world", "");
    assert_eq!(texts(&t), vec!["> echo hello world", "hello world"]);
}

#[test]
fn unknown_command() {
    let mut t = Terminal::default();
    run(&mut t, "dance", "");
    assert_eq!(
        texts(&t),
        vec![
            "> dance",
            "Unknown command: 'dance'",
            "Type 'help' for a list of available commands"
        ]
    );
}

#[test]
fn env_rd_reads_a_file() {
    let mut t = Terminal::default();
    run(&mut t, "env rd /password.pwd", "");
    assert_eq!(texts(&t)[1], "[PWD] Google::SuperPassword");
    run(&mut t, "env  rd   /missing", "");
    assert_eq!(texts(&t)[3], "Fichier introuvable : '/missing'");
    run(&mut t, "env rd /nowhere/x", "");
    assert_eq!(texts(&t)[5], "Répertoire introuvable : '/nowhere/x'");
}

#[test]
fn env_with_wrong_arguments_shows_usage() {
    let mut t = Terminal::default();
    run(&mut t, "env ls /", "");
    assert_eq!(texts(&t)[1], "  env  - Go to environment");
    assert_eq!(texts(&t)[2], "    rd <path>            - Read a file");
}

#[test]
fn page_commands() {
    let mut t = Terminal::default();
    assert_eq!(run(&mut t, "params", "").page, Some(Page::Settings));
    assert_eq!(run(&mut t, "env", "").page, Some(Page::Glob1Env));
    assert_eq!(texts(&t), vec!["> params", "> env"]);
}

#[test]
fn exit_and_minimize_effects() {
    let mut t = Terminal::default();
    let e = run(&mut t, "exit", "");
    assert!(e.exit && !e.minimize);
    assert_eq!(texts(&t)[1], "Goodbye!");
    let e = run(&mut t, "minimize", "");
    assert!(e.minimize && !e.exit);
    assert_eq!(texts(&t)[3], "Minimizing application...");
}

#[test]
fn open_prints_its_words() {
    let mut t = Terminal::default();
    let e = run(&mut t, "open", "");
    assert!(e.print_args && e.page.is_none() && !e.exit);
    assert_eq!(texts(&t), vec!["> open"]);
}

#[test]
fn time_uses_given_clock() {
    let mut t = Terminal::default();
    run(&mut t, "time", "2024-01-02 03:04:05");
    assert_eq!(texts(&t)[1], "Current time: 2024-01-02 03:04:05");
}

#[test]
fn history_keeps_last_lines() {
    let mut t = Terminal::default();
    for i in 0..80 {
        run(&mut t, &format!("echo {}", i), "");
    }
    assert_eq!(t.history.len(), MAX_HISTORY_LINES);
    assert_eq!(t.history[MAX_HISTORY_LINES - 1].text, "79");
    assert_eq!(t.history[0].text, "> echo 30");
}

#[test]
fn greeting_only_when_empty() {
    let mut t = Terminal::default();
    t.ensure_greeting("0.1.0");
    assert_eq!(
        texts(&t),
        vec!["Welcome to NWTZUI v0.1.0", "Type 'help' for a list of commands", ""]
    );
    t.ensure_greeting("0.1.0");
    assert_eq!(t.history.len(), 3);
}

#[test]
fn words_split_on_white_space() {
    assert_eq!(split_words("  rd \t /a  "), vec!["rd", "/a"]);
    assert!(split_words("   ").is_empty());
}

#[test]
fn history_entry_default() {
    let e = HistoryEntry::default();
    assert!(e.text.is_empty() && !e.is_command && e.action.is_none());
}

#[test]
fn counter_steps() {
    let mut s = State::default();
    s.update(Action::Increment);
    s.update(Action::Increment);
    s.update(Action::Decrement);
    assert_eq!(s.value, 1);
}
