use vstd::prelude::*;
use crate::entry::{Directory, File, FsEntry, Node, nodes, duplicate_all};
use crate::path::{components, is_absolute, joined, texts, split_components};
use crate::tree::{
    resolve, edit_at, first_file, write_file, find_directory, find_directory_mut, write_file_in,
    position_of_file, lemma_first_file_bounds, lemma_edit_unresolved, lemma_resolve_edit,
    lemma_read_written, lemma_replace_is_edit,
};

verus! {

/// What was missing when an operation failed with `NotFound`.
#[derive(PartialEq, Eq, Structural, Clone, Copy, Debug)]
pub enum Missing {
    Directory,
    File,
}

/// Why a filesystem operation failed.
#[derive(PartialEq, Eq, Structural, Clone, Copy, Debug)]
pub enum FsError {
    /// The path must be absolute here and is not.
    InvalidPath,
    /// The path names nothing: it has no component.
    EmptyPath,
    /// A directory or file is missing where it was expected.
    NotFound(Missing),
}

/// The text shown for a failure of an operation on `path`.
pub open spec fn error_text(e: FsError, path: Seq<char>) -> Seq<char> {
    match e {
        FsError::InvalidPath => "Le chemin doit être absolu (commencer par '/')"@,
        FsError::EmptyPath => "Chemin vide"@,
        FsError::NotFound(Missing::Directory) => "Répertoire introuvable : '"@ + path + "'"@,
        FsError::NotFound(Missing::File) => "Fichier introuvable : '"@ + path + "'"@,
    }
}

impl FsError {
    /// The text shown for this failure of an operation on `path`.
    pub fn message(&self, path: &str) -> (r: String)
        ensures
            r@ == error_text(*self, path@),
    {
        match self {
            FsError::InvalidPath => String::from_str("Le chemin doit être absolu (commencer par '/')"),
            FsError::EmptyPath => String::from_str("Chemin vide"),
            FsError::NotFound(Missing::Directory) => String::from_str("Répertoire introuvable : '").concat(
                path,
            ).concat("'"),
            FsError::NotFound(Missing::File) => String::from_str("Fichier introuvable : '").concat(
                path,
            ).concat("'"),
        }
    }
}

/// Where the environment's single script run stands. It only moves forward:
/// `Idle` to `Running` once, then `Running` to `Completed`.
#[derive(PartialEq, Eq, Structural, Clone, Copy, Debug)]
pub enum ExecutionState {
    Idle,
    Running,
    Completed,
}

/// The virtual environment: the tree under an unnamed root, a navigation
/// cursor, the state of the script run and the log of messages received.
#[derive(Debug)]
pub struct Glob1Env {
    pub current_path: String,
    pub root_content: Vec<FsEntry>,
    pub execution: ExecutionState,
    pub message_buffer: Vec<String>,
}

/// What listing `path` gives: the children of the directory it names.
pub open spec fn list_result(root: Seq<Node>, path: Seq<char>) -> Option<Seq<Node>> {
    resolve(root, components(path))
}

/// What reading the file at `path` gives.
pub open spec fn read_result(root: Seq<Node>, path: Seq<char>) -> Result<Seq<char>, FsError> {
    let cs = components(path);
    if cs.len() == 0 {
        Err(FsError::EmptyPath)
    } else {
        match resolve(root, cs.drop_last()) {
            None => Err(FsError::NotFound(Missing::Directory)),
            Some(children) => {
                let j = first_file(children, cs.last());
                if j < children.len() {
                    Ok(children[j]->text)
                } else {
                    Err(FsError::NotFound(Missing::File))
                }
            },
        }
    }
}

/// The tree after writing `text` to the file at `path`.
pub open spec fn write_result(root: Seq<Node>, path: Seq<char>, text: Seq<char>) -> Result<
    Seq<Node>,
    FsError,
> {
    let cs = components(path);
    if cs.len() == 0 {
        Err(FsError::EmptyPath)
    } else if resolve(root, cs.drop_last()) is None {
        Err(FsError::NotFound(Missing::Directory))
    } else {
        Ok(edit_at(root, cs.drop_last(), |es: Seq<Node>| write_file(es, cs.last(), text)))
    }
}

/// The tree after adding `e` as the last child of the directory at `path`.
pub open spec fn insert_result(root: Seq<Node>, path: Seq<char>, e: Node) -> Result<
    Seq<Node>,
    FsError,
> {
    if !is_absolute(path) {
        Err(FsError::InvalidPath)
    } else if resolve(root, components(path)) is None {
        Err(FsError::NotFound(Missing::Directory))
    } else {
        Ok(edit_at(root, components(path), |es: Seq<Node>| es.push(e)))
    }
}

/// The state after a request to run a script, and whether a run starts.
pub open spec fn request_step(s: ExecutionState) -> (ExecutionState, bool) {
    match s {
        ExecutionState::Idle => (ExecutionState::Running, true),
        _ => (s, false),
    }
}

/// The state after the run's work has ended.
pub open spec fn finish_step(s: ExecutionState) -> ExecutionState {
    match s {
        ExecutionState::Running => ExecutionState::Completed,
        _ => s,
    }
}

/// The log after receiving `msgs` in order: each message is appended unless
/// the log already holds it.
pub open spec fn absorb(log: Seq<Seq<char>>, msgs: Seq<Seq<char>>) -> Seq<Seq<char>>
    decreases msgs.len(),
{
    if msgs.len() == 0 {
        log
    } else {
        let before = absorb(log, msgs.drop_last());
        if before.contains(msgs.last()) {
            before
        } else {
            before.push(msgs.last())
        }
    }
}

/// The absolute path whose components are `cs`.
pub open spec fn path_of(cs: Seq<Seq<char>>) -> Seq<char>
    decreases cs.len(),
{
    if cs.len() == 0 {
        seq!['/']
    } else {
        joined(path_of(cs.drop_last()), cs.last())
    }
}

/// Writing `text` to a path and then reading that path gives `text`, whether
/// the file existed before or was created by the write.
pub proof fn lemma_write_then_read(root: Seq<Node>, path: Seq<char>, text: Seq<char>)
    requires
        write_result(root, path, text) is Ok,
    ensures
        read_result(write_result(root, path, text)->Ok_0, path) == Ok::<Seq<char>, FsError>(text),
{
    let cs = components(path);
    let f = |es: Seq<Node>| write_file(es, cs.last(), text);
    lemma_resolve_edit(root, cs.drop_last(), f);
    lemma_read_written(resolve(root, cs.drop_last())->0, cs.last(), text);
}

/// Inserting into a directory adds the entry after its existing children,
/// which keep their order.
pub proof fn lemma_insert_appends(root: Seq<Node>, path: Seq<char>, e: Node)
    requires
        insert_result(root, path, e) is Ok,
    ensures
        list_result(insert_result(root, path, e)->Ok_0, path) == Some(
            list_result(root, path)->0.push(e),
        ),
{
    lemma_resolve_edit(root, components(path), |es: Seq<Node>| es.push(e));
}

/// The tree after inserting each of `es` in turn at `path`.
pub open spec fn insert_all(root: Seq<Node>, path: Seq<char>, es: Seq<Node>) -> Result<
    Seq<Node>,
    FsError,
>
    decreases es.len(),
{
    if es.len() == 0 {
        Ok(root)
    } else {
        match insert_all(root, path, es.drop_last()) {
            Ok(t) => insert_result(t, path, es.last()),
            Err(err) => Err(err),
        }
    }
}

/// Inserting entries one after another at an absolute path that names a
/// directory succeeds each time and leaves them after the directory's
/// previous children, in the order they were inserted. In particular `/`
/// always accepts them.
pub proof fn lemma_insert_all_in_order(root: Seq<Node>, path: Seq<char>, es: Seq<Node>)
    requires
        is_absolute(path),
        list_result(root, path) is Some,
    ensures
        insert_all(root, path, es) is Ok,
        list_result(insert_all(root, path, es)->Ok_0, path) == Some(
            list_result(root, path)->0 + es,
        ),
    decreases es.len(),
{
    if es.len() == 0 {
        assert(list_result(root, path)->0 + es =~= list_result(root, path)->0);
    } else {
        lemma_insert_all_in_order(root, path, es.drop_last());
        let t = insert_all(root, path, es.drop_last())->Ok_0;
        lemma_insert_appends(t, path, es.last());
        assert(list_result(root, path)->0 + es.drop_last() + seq![es.last()] =~= list_result(
            root,
            path,
        )->0 + es);
    }
}

/// The root always resolves: `/` is a valid target for an insertion.
pub proof fn lemma_root_accepts(root: Seq<Node>, e: Node)
    ensures
        insert_result(root, seq!['/'], e) == Ok::<Seq<Node>, FsError>(root.push(e)),
{
    let p = seq!['/'];
    let empty = Seq::<char>::empty();
    let keep = |q: Seq<char>| crate::path::is_component(q);
    assert(p.drop_last() =~= empty);
    assert(crate::path::pieces(empty) == seq![empty]);
    assert(crate::path::pieces(p) == seq![empty].push(empty));
    assert(seq![empty] =~= Seq::<Seq<char>>::empty().push(empty));
    assert(Seq::<Seq<char>>::empty().filter(keep) =~= Seq::<Seq<char>>::empty()) by {
        reveal(Seq::filter);
    }
    Seq::<Seq<char>>::empty().lemma_filter_push(empty, keep);
    seq![empty].lemma_filter_push(empty, keep);
    assert(components(p) =~= Seq::<Seq<char>>::empty());
}

/// When the directory that should hold the file does not resolve, reading and
/// writing fail with `NotFound` of a directory; when the directory to insert
/// into does not resolve, inserting fails in the same way.
pub proof fn lemma_unresolved_not_found(root: Seq<Node>, path: Seq<char>, text: Seq<char>, e: Node)
    ensures
        components(path).len() > 0 && resolve(root, components(path).drop_last()) is None ==> {
            &&& read_result(root, path) == Err::<Seq<char>, FsError>(FsError::NotFound(Missing::Directory))
            &&& write_result(root, path, text) == Err::<Seq<Node>, FsError>(FsError::NotFound(Missing::Directory))
        },
        is_absolute(path) && resolve(root, components(path)) is None ==> insert_result(root, path, e)
            == Err::<Seq<Node>, FsError>(FsError::NotFound(Missing::Directory)),
{
}

/// Inserting at a path that does not start at the root fails with
/// `InvalidPath`, whatever the tree holds.
pub proof fn lemma_relative_insert_invalid(root: Seq<Node>, path: Seq<char>, e: Node)
    requires
        !is_absolute(path),
    ensures
        insert_result(root, path, e) == Err::<Seq<Node>, FsError>(FsError::InvalidPath),
{
}

/// The state and number of runs started after a series of requests (`true`)
/// and ends of work (`false`).
pub open spec fn run_events(s: ExecutionState, events: Seq<bool>) -> (ExecutionState, nat)
    decreases events.len(),
{
    if events.len() == 0 {
        (s, 0)
    } else {
        let (t, n) = run_events(s, events.drop_last());
        if events.last() {
            let (u, started) = request_step(t);
            (u, if started { n + 1 } else { n })
        } else {
            (finish_step(t), n)
        }
    }
}

/// However requests and ends of work follow each other, at most one run ever
/// starts, and none once a run has started.
pub proof fn lemma_at_most_one_run(s: ExecutionState, events: Seq<bool>)
    ensures
        run_events(s, events).1 <= (if s is Idle { 1nat } else { 0nat }),
        run_events(s, events).1 == 1 ==> !(run_events(s, events).0 is Idle),
        !(s is Idle) ==> !(run_events(s, events).0 is Idle),
    decreases events.len(),
{
    if events.len() > 0 {
        lemma_at_most_one_run(s, events.drop_last());
    }
}

/// A second request, before or after the first run ended, starts nothing.
pub proof fn lemma_second_request_starts_nothing(s: ExecutionState)
    ensures
        !request_step(request_step(s).0).1,
        !request_step(finish_step(request_step(s).0)).1,
{
}

/// Messages new to the log and distinct from each other are appended in the
/// order they were sent.
pub proof fn lemma_absorb_in_order(log: Seq<Seq<char>>, msgs: Seq<Seq<char>>)
    requires
        msgs.no_duplicates(),
        forall|i: int| 0 <= i < msgs.len() ==> !log.contains(#[trigger] msgs[i]),
    ensures
        absorb(log, msgs) == log + msgs,
    decreases msgs.len(),
{
    if msgs.len() == 0 {
        assert(log + msgs =~= log);
    } else {
        let front = msgs.drop_last();
        assert forall|i: int, j: int| 0 <= i < j < front.len() implies front[i] != front[j] by {
            assert(front[i] == msgs[i] && front[j] == msgs[j]);
        }
        assert forall|i: int| 0 <= i < front.len() implies !log.contains(#[trigger] front[i]) by {
            assert(front[i] == msgs[i]);
        }
        lemma_absorb_in_order(log, front);
        let m = msgs.last();
        if (log + front).contains(m) {
            let k = choose|k: int| 0 <= k < (log + front).len() && (log + front)[k] == m;
            if k < log.len() {
                assert(log[k] == m);
                assert(!log.contains(msgs[msgs.len() - 1]));
            } else {
                assert(front[k - log.len()] == msgs[k - log.len()]);
            }
        }
        assert((log + front).push(m) =~= log + msgs);
    }
}

/// The log never holds a message twice, and it keeps every message it has
/// received: sending the same message twice leaves one entry.
pub proof fn lemma_absorb_no_duplicates(log: Seq<Seq<char>>, msgs: Seq<Seq<char>>)
    requires
        log.no_duplicates(),
    ensures
        absorb(log, msgs).no_duplicates(),
        forall|i: int| 0 <= i < msgs.len() ==> absorb(log, msgs).contains(#[trigger] msgs[i]),
        forall|i: int| 0 <= i < log.len() ==> absorb(log, msgs)[i] == log[i],
        log.len() <= absorb(log, msgs).len(),
    decreases msgs.len(),
{
    if msgs.len() > 0 {
        let front = msgs.drop_last();
        lemma_absorb_no_duplicates(log, front);
        let before = absorb(log, front);
        let m = msgs.last();
        if !before.contains(m) {
            let after = before.push(m);
            assert forall|i: int, j: int| 0 <= i < j < after.len() implies after[i] != after[j] by {
                if j == before.len() {
                    assert(before.contains(before[i]));
                }
            }
            assert(after[before.len() as int] == m);
        }
        assert forall|i: int| 0 <= i < msgs.len() implies absorb(log, msgs).contains(
            #[trigger] msgs[i],
        ) by {
            if i < front.len() {
                assert(front[i] == msgs[i]);
                let k = choose|k: int| 0 <= k < before.len() && before[k] == front[i];
                assert(absorb(log, msgs)[k] == msgs[i]);
            } else {
                if !before.contains(m) {
                    assert(absorb(log, msgs)[before.len() as int] == m);
                }
            }
        }
    }
}

/// Receiving messages over several drains gives the same log as receiving
/// them all in one: the order in which they were sent is kept across frames.
pub proof fn lemma_absorb_concat(log: Seq<Seq<char>>, first: Seq<Seq<char>>, then: Seq<Seq<char>>)
    ensures
        absorb(absorb(log, first), then) == absorb(log, first + then),
    decreases then.len(),
{
    if then.len() == 0 {
        assert(first + then =~= first);
    } else {
        lemma_absorb_concat(log, first, then.drop_last());
        assert((first + then).drop_last() =~= first + then.drop_last());
        assert((first + then).last() == then.last());
    }
}

/// Receiving a message twice in a row leaves the log as receiving it once.
pub proof fn lemma_absorb_repeat(log: Seq<Seq<char>>, m: Seq<char>)
    ensures
        absorb(log, seq![m, m]) == absorb(log, seq![m]),
{
    let none = Seq::<Seq<char>>::empty();
    assert(seq![m, m].drop_last() =~= seq![m]);
    assert(seq![m].drop_last() =~= none);
    assert(absorb(log, none) == log);
    let once = absorb(log, seq![m]);
    assert(once == if log.contains(m) { log } else { log.push(m) });
    if !log.contains(m) {
        assert(once[log.len() as int] == m);
    }
    assert(once.contains(m));
}

/// A path built from the root stays absolute.
pub proof fn lemma_path_of_absolute(cs: Seq<Seq<char>>)
    ensures
        is_absolute(path_of(cs)),
    decreases cs.len(),
{
    if cs.len() > 0 {
        lemma_path_of_absolute(cs.drop_last());
    }
}

impl Glob1Env {
    /// The environment's invariant: the cursor is an absolute path and the log
    /// holds no message twice.
    pub open spec fn wf(self) -> bool {
        &&& is_absolute(self.current_path@)
        &&& texts(self.message_buffer@).no_duplicates()
    }

    /// The parts of two environments other than the tree agree.
    pub open spec fn same_besides_tree(self, other: Glob1Env) -> bool {
        &&& self.current_path@ == other.current_path@
        &&& self.execution == other.execution
        &&& self.message_buffer@ == other.message_buffer@
    }

    /// The value of the tree.
    pub open spec fn tree(self) -> Seq<Node> {
        nodes(self.root_content@)
    }

    /// A copy of the children of the directory at `path` (the root's for a path
    /// with no component), in insertion order.
    pub fn ls_path(&self, path: &str) -> (r: Result<Vec<FsEntry>, FsError>)
        ensures
            match list_result(self.tree(), path@) {
                Some(children) => r matches Ok(v) && nodes(v@) == children,
                None => r == Err::<Vec<FsEntry>, FsError>(FsError::NotFound(Missing::Directory)),
            },
    {
        let parts = split_components(path);
        if parts.len() == 0 {
            return Ok(duplicate_all(&self.root_content));
        }
        assert(texts(parts@).subrange(0, parts@.len() as int) =~= texts(parts@));
        match find_directory(&self.root_content, &parts, 0) {
            Some(d) => Ok(duplicate_all(&d.content)),
            None => Err(FsError::NotFound(Missing::Directory)),
        }
    }

    /// A copy of the children of the directory at the navigation cursor.
    pub fn ls(&self) -> (r: Result<Vec<FsEntry>, FsError>)
        ensures
            match list_result(self.tree(), self.current_path@) {
                Some(children) => r matches Ok(v) && nodes(v@) == children,
                None => r == Err::<Vec<FsEntry>, FsError>(FsError::NotFound(Missing::Directory)),
            },
    {
        self.ls_path(self.current_path.as_str())
    }

    /// The content of the first file called as the last component of `path`
    /// in the directory that the other components name.
    pub fn rd(&self, path: &str) -> (r: Result<String, FsError>)
        ensures
            match read_result(self.tree(), path@) {
                Ok(text) => r matches Ok(s) && s@ == text,
                Err(e) => r == Err::<String, FsError>(e),
            },
    {
        let mut parts = split_components(path);
        let ghost cs = texts(parts@);
        let name = match parts.pop() {
            Some(n) => n,
            None => {
                return Err(FsError::EmptyPath);
            },
        };
        assert(texts(parts@) =~= cs.drop_last());
        assert(texts(parts@).subrange(0, parts@.len() as int) =~= texts(parts@));
        let container = if parts.len() == 0 {
            &self.root_content
        } else {
            match find_directory(&self.root_content, &parts, 0) {
                Some(d) => &d.content,
                None => {
                    return Err(FsError::NotFound(Missing::Directory));
                },
            }
        };
        match position_of_file(container, &name) {
            Some(j) => {
                assert(nodes(container@)[j as int] == container@[j as int].node());
                match &container[j] {
                    FsEntry::File(f) => Ok(f.content.clone()),
                    FsEntry::Directory(_) => {
                        proof {
                            lemma_first_file_bounds(nodes(container@), name@);
                        }
                        Err(FsError::NotFound(Missing::File))
                    },
                }
            },
            None => Err(FsError::NotFound(Missing::File)),
        }
    }

    /// Writes `content` to the file at `path`: the first file of that name in
    /// its directory gets the new content, or a new non-system file is added
    /// last. On failure nothing changes.
    pub fn wr(&mut self, path: &str, content: String) -> (r: Result<(), FsError>)
        ensures
            final(self).same_besides_tree(*old(self)),
            match write_result(old(self).tree(), path@, content@) {
                Ok(t) => r is Ok && final(self).tree() == t,
                Err(e) => r == Err::<(), FsError>(e) && final(self).tree() == old(self).tree(),
            },
    {
        let mut parts = split_components(path);
        let ghost cs = texts(parts@);
        let name = match parts.pop() {
            Some(n) => n,
            None => {
                return Err(FsError::EmptyPath);
            },
        };
        assert(texts(parts@) =~= cs.drop_last());
        assert(texts(parts@).subrange(0, parts@.len() as int) =~= texts(parts@));
        let ghost dir_parts = cs.drop_last();
        let ghost before = self.tree();
        let ghost f = |es: Seq<Node>| write_file(es, cs.last(), content@);
        if parts.len() == 0 {
            write_file_in(&mut self.root_content, name, content);
            return Ok(());
        }
        match find_directory_mut(&mut self.root_content, &parts, 0) {
            Some(d) => {
                let ghost found = *d;
                proof {
                    crate::entry::lemma_dir_node(found);
                    lemma_replace_is_edit(before, dir_parts, found.node(), f);
                }
                write_file_in(&mut d.content, name, content);
                Ok(())
            },
            None => {
                proof {
                    lemma_edit_unresolved(before, dir_parts, f);
                }
                Err(FsError::NotFound(Missing::Directory))
            },
        }
    }

    /// Adds `entry` as the last child of the directory at the absolute `path`;
    /// `/` names the root.
    pub fn add_entry_to_path(&mut self, path: &str, entry: FsEntry) -> (r: Result<(), FsError>)
        ensures
            final(self).same_besides_tree(*old(self)),
            match insert_result(old(self).tree(), path@, entry.node()) {
                Ok(t) => r is Ok && final(self).tree() == t,
                Err(e) => r == Err::<(), FsError>(e) && final(self).tree() == old(self).tree(),
            },
    {
        let n = path.unicode_len();
        if n == 0 || path.get_char(0) != '/' {
            return Err(FsError::InvalidPath);
        }
        let parts = split_components(path);
        let ghost cs = texts(parts@);
        let ghost e = entry.node();
        let ghost before = self.tree();
        let ghost f = |es: Seq<Node>| es.push(e);
        assert(cs.subrange(0, parts@.len() as int) =~= cs);
        if parts.len() == 0 {
            self.root_content.push(entry);
            assert(self.tree() =~= before.push(e));
            return Ok(());
        }
        match find_directory_mut(&mut self.root_content, &parts, 0) {
            Some(d) => {
                let ghost found = *d;
                proof {
                    crate::entry::lemma_dir_node(found);
                    lemma_replace_is_edit(before, cs, found.node(), f);
                }
                d.content.push(entry);
                assert(nodes(d.content@) =~= nodes(found.content@).push(e));
                Ok(())
            },
            None => {
                proof {
                    lemma_edit_unresolved(before, cs, f);
                }
                Err(FsError::NotFound(Missing::Directory))
            },
        }
    }

    /// `path` extended by `segment`, with a `/` between them unless `path`
    /// already ends with one.
    pub fn join_fn(path: &str, segment: &str) -> (r: String)
        ensures
            r@ == joined(path@, segment@),
    {
        let n = path.unicode_len();
        let mut s = String::from_str(path);
        if n == 0 || path.get_char(n - 1) != '/' {
            s.append("/");
            proof {
                reveal_strlit("/");
            }
            assert(s@ =~= path@.push('/'));
        }
        s.append(segment);
        s
    }

    /// Descends into `segment` below the navigation cursor.
    pub fn push(&mut self, segment: &str)
        ensures
            final(self).current_path@ == joined(old(self).current_path@, segment@),
            old(self).wf() ==> final(self).wf(),
            final(self).root_content@ == old(self).root_content@,
            final(self).execution == old(self).execution,
            final(self).message_buffer@ == old(self).message_buffer@,
    {
        self.current_path = Self::join_fn(self.current_path.as_str(), segment);
    }

    /// Moves the navigation cursor up one directory. At the root there is
    /// nowhere to go: nothing changes and the result is false, which tells
    /// the caller to leave the environment's view.
    pub fn pop(&mut self) -> (moved: bool)
        ensures
            moved == (components(old(self).current_path@).len() > 0),
            moved ==> final(self).current_path@ == path_of(
                components(old(self).current_path@).drop_last(),
            ),
            !moved ==> final(self).current_path@ == old(self).current_path@,
            old(self).wf() ==> final(self).wf(),
            final(self).root_content@ == old(self).root_content@,
            final(self).execution == old(self).execution,
            final(self).message_buffer@ == old(self).message_buffer@,
    {
        let mut parts = split_components(self.current_path.as_str());
        if parts.len() == 0 {
            return false;
        }
        let ghost cs = texts(parts@);
        parts.pop();
        assert(texts(parts@) =~= cs.drop_last());
        let mut p = String::from_str("/");
        proof {
            reveal_strlit("/");
            assert(texts(parts@).subrange(0, 0) =~= Seq::<Seq<char>>::empty());
            assert(p@ =~= seq!['/']);
        }
        let mut i: usize = 0;
        while i < parts.len()
            invariant
                i <= parts@.len(),
                p@ == path_of(texts(parts@).subrange(0, i as int)),
            decreases parts@.len() - i,
        {
            p = Self::join_fn(p.as_str(), parts[i].as_str());
            assert(texts(parts@).subrange(0, i + 1).drop_last() =~= texts(parts@).subrange(
                0,
                i as int,
            ));
            i = i + 1;
        }
        assert(texts(parts@).subrange(0, parts@.len() as int) =~= texts(parts@));
        proof {
            lemma_path_of_absolute(texts(parts@));
        }
        self.current_path = p;
        true
    }

    /// Moves the navigation cursor to the absolute `path`.
    pub fn cd(&mut self, path: &str) -> (r: &String)
        requires
            is_absolute(path@),
        ensures
            old(self).wf() ==> final(self).wf(),
            r@ == path@,
            final(self).current_path@ == path@,
            final(self).root_content@ == old(self).root_content@,
            final(self).execution == old(self).execution,
            final(self).message_buffer@ == old(self).message_buffer@,
    {
        self.current_path = String::from_str(path);
        &self.current_path
    }

    /// A request to run a script: it starts a run only the first time; a
    /// request while a run is going on or after it ended does nothing.
    /// Returns whether the caller is to start the run now.
    pub fn request_execution(&mut self) -> (start: bool)
        ensures
            (final(self).execution, start) == request_step(old(self).execution),
            final(self).current_path@ == old(self).current_path@,
            final(self).root_content@ == old(self).root_content@,
            final(self).message_buffer@ == old(self).message_buffer@,
    {
        match self.execution {
            ExecutionState::Idle => {
                self.execution = ExecutionState::Running;
                true
            },
            _ => false,
        }
    }

    /// Records that the run's work has ended, whether it succeeded or not.
    pub fn finish_execution(&mut self)
        ensures
            final(self).execution == finish_step(old(self).execution),
            final(self).current_path@ == old(self).current_path@,
            final(self).root_content@ == old(self).root_content@,
            final(self).message_buffer@ == old(self).message_buffer@,
    {
        if self.execution == ExecutionState::Running {
            self.execution = ExecutionState::Completed;
        }
    }

    /// Whether a run has ever been started.
    pub fn execution_started(&self) -> (r: bool)
        ensures
            r == !(self.execution is Idle),
    {
        !matches!(self.execution, ExecutionState::Idle)
    }

    /// Whether the log already holds `msg`.
    pub fn has_message(&self, msg: &String) -> (r: bool)
        ensures
            r == texts(self.message_buffer@).contains(msg@),
    {
        let mut i: usize = 0;
        while i < self.message_buffer.len()
            invariant
                i <= self.message_buffer@.len(),
                forall|j: int| 0 <= j < i ==> self.message_buffer@[j]@ != msg@,
            decreases self.message_buffer@.len() - i,
        {
            if self.message_buffer[i] == *msg {
                assert(texts(self.message_buffer@)[i as int] == msg@);
                return true;
            }
            i = i + 1;
        }
        proof {
            if texts(self.message_buffer@).contains(msg@) {
                let k = choose|k: int|
                    0 <= k < texts(self.message_buffer@).len() && texts(self.message_buffer@)[k]
                        == msg@;
                assert(self.message_buffer@[k]@ == msg@);
            }
        }
        false
    }

    /// Takes the messages received since the last call, in the order they were
    /// sent, into the log; one that the log already holds is dropped.
    pub fn collect_messages(&mut self, incoming: Vec<String>)
        ensures
            texts(final(self).message_buffer@) == absorb(
                texts(old(self).message_buffer@),
                texts(incoming@),
            ),
            old(self).wf() ==> final(self).wf(),
            final(self).current_path@ == old(self).current_path@,
            final(self).root_content@ == old(self).root_content@,
            final(self).execution == old(self).execution,
    {
        let ghost log0 = texts(self.message_buffer@);
        let ghost msgs = texts(incoming@);
        let ghost all = incoming@;
        assert(texts(all).subrange(0, 0) =~= Seq::<Seq<char>>::empty());
        let mut i: usize = 0;
        let n = incoming.len();
        while i < n
            invariant
                n == all.len(),
                incoming@ == all,
                i <= n,
                msgs == texts(all),
                texts(self.message_buffer@) == absorb(log0, msgs.subrange(0, i as int)),
                self.current_path@ == old(self).current_path@,
                self.root_content@ == old(self).root_content@,
                self.execution == old(self).execution,
            decreases n - i,
        {
            let msg = incoming[i].clone();
            assert(msgs.subrange(0, i + 1).drop_last() =~= msgs.subrange(0, i as int));
            assert(msgs.subrange(0, i + 1).last() == msg@);
            if !self.has_message(&msg) {
                let ghost before = texts(self.message_buffer@);
                self.message_buffer.push(msg);
                assert(texts(self.message_buffer@) =~= before.push(msg@));
            }
            i = i + 1;
        }
        assert(msgs.subrange(0, n as int) =~= msgs);
        proof {
            if old(self).wf() {
                lemma_absorb_no_duplicates(log0, msgs);
            }
        }
    }
}

/// The tree that a new environment starts with: a system directory, a welcome
/// document, a credential document and a script.
pub open spec fn initial_tree() -> Seq<Node> {
    seq![
        Node::Dir { name: "sys"@, children: Seq::empty(), system: true },
        Node::File { name: "Welcome.md"@, text: "Welcome to glob1env !\nmade by Nyutiz"@, system: false },
        Node::File { name: "password.pwd"@, text: "[PWD] Google::SuperPassword"@, system: false },
        Node::File {
            name: "password.nwtz!"@,
            text: "ui.password(\"GLOBAL\", \"Put41n2m3r63-!...?44\");\n        ui.password(\"Google01\", \"Put41n2m3r63-!GOOG01?44\");\n        "@,
            system: false,
        },
    ]
}

/// A new environment: the initial tree, the cursor at the root, no run
/// started and an empty log.
pub fn init_system() -> (env: Glob1Env)
    ensures
        env.current_path@ == "/"@,
        env.tree() == initial_tree(),
        env.execution == ExecutionState::Idle,
        env.message_buffer@.len() == 0,
        env.wf(),
{
    let mut env = Glob1Env {
        current_path: String::from_str("/"),
        root_content: Vec::new(),
        execution: ExecutionState::Idle,
        message_buffer: Vec::new(),
    };
    proof {
        reveal_strlit("/");
        assert("/"@ =~= seq!['/']);
        assert(env.tree() =~= Seq::<Node>::empty());
    }
    let sys = FsEntry::Directory(
        Directory { name: String::from_str("sys"), content: Vec::new(), system: true },
    );
    proof {
        crate::entry::lemma_dir_node(sys->Directory_0);
        assert(nodes(sys->Directory_0.content@) =~= Seq::<Node>::empty());
        lemma_root_accepts(env.tree(), sys.node());
    }
    let _ = env.add_entry_to_path("/", sys);
    let welcome = FsEntry::File(
        File {
            name: String::from_str("Welcome.md"),
            content: String::from_str("Welcome to glob1env !\nmade by Nyutiz"),
            system: false,
        },
    );
    proof {
        lemma_root_accepts(env.tree(), welcome.node());
    }
    let _ = env.add_entry_to_path("/", welcome);
    let credentials = FsEntry::File(
        File {
            name: String::from_str("password.pwd"),
            content: String::from_str("[PWD] Google::SuperPassword"),
            system: false,
        },
    );
    proof {
        lemma_root_accepts(env.tree(), credentials.node());
    }
    let _ = env.add_entry_to_path("/", credentials);
    let script = FsEntry::File(
        File {
            name: String::from_str("password.nwtz!"),
            content: String::from_str(
                "ui.password(\"GLOBAL\", \"Put41n2m3r63-!...?44\");\n        ui.password(\"Google01\", \"Put41n2m3r63-!GOOG01?44\");\n        ",
            ),
            system: false,
        },
    );
    proof {
        lemma_root_accepts(env.tree(), script.node());
    }
    let _ = env.add_entry_to_path("/", script);
    assert(env.tree() =~= initial_tree());
    assert(texts(env.message_buffer@) =~= Seq::<Seq<char>>::empty());
    env
}

impl Default for Glob1Env {
    fn default() -> (env: Glob1Env)
        ensures
            env.current_path@ == "/"@,
            env.tree() == initial_tree(),
            env.execution == ExecutionState::Idle,
            env.message_buffer@.len() == 0,
            env.wf(),
    {
        init_system()
    }
}

} // verus!
