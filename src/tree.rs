use vstd::prelude::*;
use crate::entry::{Directory, File, FsEntry, Node, nodes, lemma_dir_node, lemma_nodes_update};
use crate::path::texts;

verus! {

/// `n` is a directory called `name`.
pub open spec fn is_dir_named(n: Node, name: Seq<char>) -> bool {
    n is Dir && n.name() == name
}

/// `n` is a file called `name`.
pub open spec fn is_file_named(n: Node, name: Seq<char>) -> bool {
    n is File && n.name() == name
}

/// Index of the first directory called `name` in `es`; `es.len()` when there
/// is none.
pub open spec fn first_dir(es: Seq<Node>, name: Seq<char>) -> int
    decreases es.len(),
{
    if es.len() == 0 {
        0
    } else if is_dir_named(es[0], name) {
        0
    } else {
        1 + first_dir(es.drop_first(), name)
    }
}

/// Index of the first file called `name` in `es`; `es.len()` when there is
/// none.
pub open spec fn first_file(es: Seq<Node>, name: Seq<char>) -> int
    decreases es.len(),
{
    if es.len() == 0 {
        0
    } else if is_file_named(es[0], name) {
        0
    } else {
        1 + first_file(es.drop_first(), name)
    }
}

/// The children of the directory reached from `es` by following `parts`,
/// taking the first directory of each name; `es` itself for no parts.
pub open spec fn resolve(es: Seq<Node>, parts: Seq<Seq<char>>) -> Option<Seq<Node>>
    decreases parts.len(),
{
    if parts.len() == 0 {
        Some(es)
    } else {
        let i = first_dir(es, parts[0]);
        if i < es.len() {
            resolve(es[i]->children, parts.drop_first())
        } else {
            None
        }
    }
}

/// `es` with the children of the directory at `parts` replaced by `f` of them;
/// `es` unchanged when `parts` does not resolve.
pub open spec fn edit_at(
    es: Seq<Node>,
    parts: Seq<Seq<char>>,
    f: spec_fn(Seq<Node>) -> Seq<Node>,
) -> Seq<Node>
    decreases parts.len(),
{
    if parts.len() == 0 {
        f(es)
    } else {
        let i = first_dir(es, parts[0]);
        if i < es.len() {
            es.update(
                i,
                Node::Dir {
                    name: es[i].name(),
                    children: edit_at(es[i]->children, parts.drop_first(), f),
                    system: es[i]->Dir_system,
                },
            )
        } else {
            es
        }
    }
}

/// `es` with the first file called `name` given the text `text`, or with a new
/// non-system file of that name and text at the end when there is none.
pub open spec fn write_file(es: Seq<Node>, name: Seq<char>, text: Seq<char>) -> Seq<Node> {
    let j = first_file(es, name);
    if j < es.len() {
        es.update(j, Node::File { name, text, system: es[j]->File_system })
    } else {
        es.push(Node::File { name, text, system: false })
    }
}

pub proof fn lemma_first_dir_bounds(es: Seq<Node>, name: Seq<char>)
    ensures
        0 <= first_dir(es, name) <= es.len(),
        first_dir(es, name) < es.len() ==> is_dir_named(es[first_dir(es, name)], name),
        forall|j: int| 0 <= j < first_dir(es, name) ==> !is_dir_named(#[trigger] es[j], name),
    decreases es.len(),
{
    if es.len() > 0 && !is_dir_named(es[0], name) {
        lemma_first_dir_bounds(es.drop_first(), name);
        assert forall|j: int| 0 <= j < first_dir(es, name) implies !is_dir_named(
            #[trigger] es[j],
            name,
        ) by {
            if j > 0 {
                assert(es[j] == es.drop_first()[j - 1]);
            }
        }
    }
}

pub proof fn lemma_first_dir_at(es: Seq<Node>, name: Seq<char>, i: int)
    requires
        0 <= i <= es.len(),
        i < es.len() ==> is_dir_named(es[i], name),
        forall|j: int| 0 <= j < i ==> !is_dir_named(#[trigger] es[j], name),
    ensures
        first_dir(es, name) == i,
    decreases i,
{
    if i > 0 {
        assert(!is_dir_named(es[0], name));
        assert forall|j: int| 0 <= j < i - 1 implies !is_dir_named(
            #[trigger] es.drop_first()[j],
            name,
        ) by {
            assert(es.drop_first()[j] == es[j + 1]);
        }
        lemma_first_dir_at(es.drop_first(), name, i - 1);
    }
}

pub proof fn lemma_first_file_bounds(es: Seq<Node>, name: Seq<char>)
    ensures
        0 <= first_file(es, name) <= es.len(),
        first_file(es, name) < es.len() ==> is_file_named(es[first_file(es, name)], name),
        forall|j: int| 0 <= j < first_file(es, name) ==> !is_file_named(#[trigger] es[j], name),
    decreases es.len(),
{
    if es.len() > 0 && !is_file_named(es[0], name) {
        lemma_first_file_bounds(es.drop_first(), name);
        assert forall|j: int| 0 <= j < first_file(es, name) implies !is_file_named(
            #[trigger] es[j],
            name,
        ) by {
            if j > 0 {
                assert(es[j] == es.drop_first()[j - 1]);
            }
        }
    }
}

pub proof fn lemma_first_file_at(es: Seq<Node>, name: Seq<char>, i: int)
    requires
        0 <= i <= es.len(),
        i < es.len() ==> is_file_named(es[i], name),
        forall|j: int| 0 <= j < i ==> !is_file_named(#[trigger] es[j], name),
    ensures
        first_file(es, name) == i,
    decreases i,
{
    if i > 0 {
        assert(!is_file_named(es[0], name));
        assert forall|j: int| 0 <= j < i - 1 implies !is_file_named(
            #[trigger] es.drop_first()[j],
            name,
        ) by {
            assert(es.drop_first()[j] == es[j + 1]);
        }
        lemma_first_file_at(es.drop_first(), name, i - 1);
    }
}

/// Editing at a path that does not resolve changes nothing.
pub proof fn lemma_edit_unresolved(
    es: Seq<Node>,
    parts: Seq<Seq<char>>,
    f: spec_fn(Seq<Node>) -> Seq<Node>,
)
    requires
        resolve(es, parts) is None,
    ensures
        edit_at(es, parts, f) == es,
    decreases parts.len(),
{
    if parts.len() > 0 {
        let i = first_dir(es, parts[0]);
        lemma_first_dir_bounds(es, parts[0]);
        if i < es.len() {
            lemma_edit_unresolved(es[i]->children, parts.drop_first(), f);
            let d = Node::Dir {
                name: es[i].name(),
                children: es[i]->children,
                system: es[i]->Dir_system,
            };
            assert(d == es[i]);
            assert(es.update(i, d) =~= es);
        }
    }
}

/// After an edit at a path that resolves, the path resolves to the edited
/// children.
pub proof fn lemma_resolve_edit(
    es: Seq<Node>,
    parts: Seq<Seq<char>>,
    f: spec_fn(Seq<Node>) -> Seq<Node>,
)
    requires
        resolve(es, parts) is Some,
    ensures
        resolve(edit_at(es, parts, f), parts) == Some(f(resolve(es, parts)->0)),
    decreases parts.len(),
{
    if parts.len() > 0 {
        let i = first_dir(es, parts[0]);
        lemma_first_dir_bounds(es, parts[0]);
        lemma_resolve_edit(es[i]->children, parts.drop_first(), f);
        let ed = edit_at(es, parts, f);
        assert forall|j: int| 0 <= j < i implies !is_dir_named(#[trigger] ed[j], parts[0]) by {
            assert(ed[j] == es[j]);
        }
        lemma_first_dir_at(ed, parts[0], i);
    }
}

/// After a write, the first file of that name holds the written text.
pub proof fn lemma_read_written(es: Seq<Node>, name: Seq<char>, text: Seq<char>)
    ensures
        first_file(write_file(es, name, text), name) < write_file(es, name, text).len(),
        write_file(es, name, text)[first_file(write_file(es, name, text), name)]->text == text,
{
    let w = write_file(es, name, text);
    let j = first_file(es, name);
    lemma_first_file_bounds(es, name);
    assert forall|k: int| 0 <= k < j implies !is_file_named(#[trigger] w[k], name) by {
        assert(w[k] == es[k]);
    }
    lemma_first_file_at(w, name, j);
}

/// Index of the first directory of `entries` called `name`, if any.
pub fn position_of_dir(entries: &Vec<FsEntry>, name: &String) -> (r: Option<usize>)
    ensures
        match r {
            Some(i) => i == first_dir(nodes(entries@), name@) && i < entries@.len(),
            None => first_dir(nodes(entries@), name@) == entries@.len(),
        },
{
    let ghost es = nodes(entries@);
    let mut i: usize = 0;
    while i < entries.len()
        invariant
            i <= entries@.len(),
            es == nodes(entries@),
            forall|j: int| 0 <= j < i ==> !is_dir_named(#[trigger] es[j], name@),
        decreases entries@.len() - i,
    {
        match &entries[i] {
            FsEntry::Directory(d) => {
                proof {
                    lemma_dir_node(*d);
                }
                if d.name == *name {
                    proof {
                        lemma_first_dir_at(es, name@, i as int);
                    }
                    return Some(i);
                }
            },
            FsEntry::File(_) => {},
        }
        i = i + 1;
    }
    proof {
        lemma_first_dir_at(es, name@, i as int);
    }
    None
}

/// Index of the first file of `entries` called `name`, if any.
pub fn position_of_file(entries: &Vec<FsEntry>, name: &String) -> (r: Option<usize>)
    ensures
        match r {
            Some(i) => i == first_file(nodes(entries@), name@) && i < entries@.len(),
            None => first_file(nodes(entries@), name@) == entries@.len(),
        },
{
    let ghost es = nodes(entries@);
    let mut i: usize = 0;
    while i < entries.len()
        invariant
            i <= entries@.len(),
            es == nodes(entries@),
            forall|j: int| 0 <= j < i ==> !is_file_named(#[trigger] es[j], name@),
        decreases entries@.len() - i,
    {
        match &entries[i] {
            FsEntry::File(f) => {
                if f.name == *name {
                    proof {
                        lemma_first_file_at(es, name@, i as int);
                    }
                    return Some(i);
                }
            },
            FsEntry::Directory(_) => {},
        }
        i = i + 1;
    }
    proof {
        lemma_first_file_at(es, name@, i as int);
    }
    None
}

/// The directory reached from `entries` by following `parts[from..]`, taking
/// the first directory of each name; none when no part is left or one of them
/// does not resolve.
pub fn find_directory<'a>(entries: &'a Vec<FsEntry>, parts: &Vec<String>, from: usize) -> (r:
    Option<&'a Directory>)
    requires
        from <= parts@.len(),
    ensures
        from == parts@.len() ==> r is None,
        r matches Some(d) ==> d.name@ == texts(parts@).last(),
        r matches Some(d) ==> replace_at(
            nodes(entries@),
            texts(parts@).subrange(from as int, parts@.len() as int),
            d.node(),
        ) == nodes(entries@),
        from < parts@.len() ==> match r {
            Some(d) => resolve(nodes(entries@), texts(parts@).subrange(from as int, parts@.len() as int))
                == Some(nodes(d.content@)),
            None => resolve(nodes(entries@), texts(parts@).subrange(from as int, parts@.len() as int))
                is None,
        },
    decreases parts@.len() - from,
{
    if from == parts.len() {
        return None;
    }
    let ghost rest = texts(parts@).subrange(from as int, parts@.len() as int);
    assert(rest[0] == parts@[from as int]@);
    assert(rest.drop_first() =~= texts(parts@).subrange(from + 1, parts@.len() as int));
    match position_of_dir(entries, &parts[from]) {
        None => {
            assert(resolve(nodes(entries@), rest) is None);
            None
        },
        Some(i) => {
            assert(nodes(entries@)[i as int] == entries@[i as int].node());
            match &entries[i] {
                FsEntry::Directory(d) => {
                    proof {
                        lemma_dir_node(*d);
                    }
                    assert(nodes(entries@)[i as int]->children == nodes(d.content@));
                    let ghost es = nodes(entries@);
                    assert(resolve(es, rest) == resolve(es[i as int]->children, rest.drop_first()));
                    proof {
                        lemma_first_dir_bounds(es, parts@[from as int]@);
                    }
                    let ghost here = Node::Dir {
                        name: es[i as int].name(),
                        children: es[i as int]->children,
                        system: es[i as int]->Dir_system,
                    };
                    assert(here == es[i as int]);
                    assert(es.update(i as int, here) =~= es);
                    if from + 1 == parts.len() {
                        assert(rest.drop_first() =~= Seq::<Seq<char>>::empty());
                        assert(texts(parts@).last() == parts@[from as int]@);
                        assert(es.update(i as int, d.node()) =~= es);
                        Some(d)
                    } else {
                        find_directory(&d.content, parts, from + 1)
                    }
                },
                FsEntry::File(_) => {
                    proof {
                        lemma_first_dir_bounds(nodes(entries@), parts@[from as int]@);
                    }
                    None
                },
            }
        },
    }
}

/// `es` with the directory at `parts` (at least one part) replaced by `n`;
/// `es` unchanged when `parts` does not resolve.
pub open spec fn replace_at(es: Seq<Node>, parts: Seq<Seq<char>>, n: Node) -> Seq<Node>
    decreases parts.len(),
{
    if parts.len() == 0 {
        es
    } else {
        let i = first_dir(es, parts[0]);
        if i < es.len() {
            if parts.len() == 1 {
                es.update(i, n)
            } else {
                es.update(
                    i,
                    Node::Dir {
                        name: es[i].name(),
                        children: replace_at(es[i]->children, parts.drop_first(), n),
                        system: es[i]->Dir_system,
                    },
                )
            }
        } else {
            es
        }
    }
}

/// The directory reached from `entries` by following `parts[from..]` (see
/// `find_directory`), lent for changes: whatever it becomes takes its place
/// in `entries`.
pub fn find_directory_mut<'a>(entries: &'a mut Vec<FsEntry>, parts: &Vec<String>, from: usize) -> (r:
    Option<&'a mut Directory>)
    requires
        from <= parts@.len(),
    ensures
        r is Some == (from < parts@.len() && resolve(
            nodes(old(entries)@),
            texts(parts@).subrange(from as int, parts@.len() as int),
        ) is Some),
        r matches Some(d) ==> nodes(d.content@) == resolve(
            nodes(old(entries)@),
            texts(parts@).subrange(from as int, parts@.len() as int),
        )->0,
        r matches Some(d) ==> d.name@ == texts(parts@).last(),
        r matches Some(d) ==> replace_at(
            nodes(old(entries)@),
            texts(parts@).subrange(from as int, parts@.len() as int),
            d.node(),
        ) == nodes(old(entries)@),
        r matches Some(d) ==> nodes(final(entries)@) == replace_at(
            nodes(old(entries)@),
            texts(parts@).subrange(from as int, parts@.len() as int),
            final(d).node(),
        ),
        r is None ==> nodes(final(entries)@) == nodes(old(entries)@),
    decreases parts@.len() - from,
{
    broadcast use {lemma_dir_node, lemma_nodes_update};

    if from == parts.len() {
        return None;
    }
    let ghost rest = texts(parts@).subrange(from as int, parts@.len() as int);
    assert(rest[0] == parts@[from as int]@);
    assert(rest.drop_first() =~= texts(parts@).subrange(from + 1, parts@.len() as int));
    match position_of_dir(entries, &parts[from]) {
        None => {
            assert(resolve(nodes(entries@), rest) is None);
            None
        },
        Some(i) => {
            let ghost es = nodes(entries@);
            assert(es[i as int] == entries@[i as int].node());
            assert(resolve(es, rest) == resolve(es[i as int]->children, rest.drop_first()));
            proof {
                lemma_first_dir_bounds(es, parts@[from as int]@);
            }
            let e = &mut entries[i];
            match e {
                FsEntry::Directory(d) => {
                    proof {
                        lemma_dir_node(*d);
                    }
                    assert(es[i as int]->children == nodes(d.content@));
                    let ghost here = Node::Dir {
                        name: es[i as int].name(),
                        children: es[i as int]->children,
                        system: es[i as int]->Dir_system,
                    };
                    assert(here == es[i as int]);
                    assert(es.update(i as int, here) =~= es);
                    if from + 1 == parts.len() {
                        assert(rest.drop_first() =~= Seq::<Seq<char>>::empty());
                        assert(texts(parts@).last() == parts@[from as int]@);
                        assert(es.update(i as int, d.node()) =~= es);
                        Some(d)
                    } else {
                        find_directory_mut(&mut d.content, parts, from + 1)
                    }
                },
                FsEntry::File(_) => {
                    proof {
                        lemma_first_dir_bounds(es, parts@[from as int]@);
                    }
                    None
                },
            }
        },
    }
}

/// Putting back, at a path, its own directory with changed children is the
/// edit of those children at that path.
pub proof fn lemma_replace_is_edit(
    es: Seq<Node>,
    parts: Seq<Seq<char>>,
    n: Node,
    f: spec_fn(Seq<Node>) -> Seq<Node>,
)
    requires
        parts.len() > 0,
        resolve(es, parts) is Some,
        n is Dir,
        n->children == resolve(es, parts)->0,
        replace_at(es, parts, n) == es,
    ensures
        replace_at(
            es,
            parts,
            Node::Dir { name: n.name(), children: f(n->children), system: n->Dir_system },
        ) == edit_at(es, parts, f),
    decreases parts.len(),
{
    let i = first_dir(es, parts[0]);
    lemma_first_dir_bounds(es, parts[0]);
    let rest = parts.drop_first();
    let ch = es[i]->children;
    let n2 = Node::Dir { name: n.name(), children: f(n->children), system: n->Dir_system };
    assert(resolve(es, parts) == resolve(ch, rest));
    if parts.len() == 1 {
        assert(es.update(i, n)[i] == n);
        assert(rest.len() == 0);
        assert(edit_at(ch, rest, f) == f(ch));
        assert(replace_at(es, parts, n2) == es.update(i, n2));
    } else {
        let put = Node::Dir {
            name: es[i].name(),
            children: replace_at(ch, rest, n),
            system: es[i]->Dir_system,
        };
        assert(replace_at(es, parts, n) == es.update(i, put));
        assert(es.update(i, put)[i] == put);
        assert(replace_at(ch, rest, n) == ch);
        lemma_replace_is_edit(ch, rest, n, f);
        assert(replace_at(es, parts, n2) == es.update(
            i,
            Node::Dir {
                name: es[i].name(),
                children: replace_at(ch, rest, n2),
                system: es[i]->Dir_system,
            },
        ));
    }
}

/// Writes `text` to the first file of `entries` called `name`, keeping its
/// `system` flag, or adds a new non-system file last when there is none.
pub fn write_file_in(entries: &mut Vec<FsEntry>, name: String, text: String)
    ensures
        nodes(final(entries)@) == write_file(nodes(old(entries)@), name@, text@),
{
    let ghost before = entries@;
    let ghost name_v = name@;
    let ghost text_v = text@;
    match position_of_file(entries, &name) {
        Some(j) => {
            assert(nodes(entries@)[j as int] == entries@[j as int].node());
            let system = match &entries[j] {
                FsEntry::File(f) => f.system,
                FsEntry::Directory(_) => {
                    proof {
                        lemma_first_file_bounds(nodes(entries@), name@);
                    }
                    false
                },
            };
            entries.set(j, FsEntry::File(File { name, content: text, system }));
            assert(nodes(entries@) =~= write_file(nodes(before), name_v, text_v));
        },
        None => {
            entries.push(FsEntry::File(File { name, content: text, system: false }));
            assert(nodes(entries@) =~= write_file(nodes(before), name_v, text_v));
        },
    }
}

} // verus!
