use vstd::prelude::*;

verus! {

/// A node of the virtual tree: a file or a directory.
#[derive(Debug)]
pub enum FsEntry {
    File(File),
    Directory(Directory),
}

/// A text file. `system` marks built-in content; it is shown differently and
/// has no effect on access.
#[derive(Clone, Debug)]
pub struct File {
    pub name: String,
    pub content: String,
    pub system: bool,
}

/// A directory; `content` is kept in insertion order.
#[derive(Debug)]
pub struct Directory {
    pub name: String,
    pub content: Vec<FsEntry>,
    pub system: bool,
}

/// The mathematical value of an entry.
pub enum Node {
    File { name: Seq<char>, text: Seq<char>, system: bool },
    Dir { name: Seq<char>, children: Seq<Node>, system: bool },
}

impl Node {
    pub open spec fn name(self) -> Seq<char> {
        match self {
            Node::File { name, .. } => name,
            Node::Dir { name, .. } => name,
        }
    }
}

impl FsEntry {
    pub open spec fn node(self) -> Node
        decreases self,
    {
        match self {
            FsEntry::File(f) => Node::File { name: f.name@, text: f.content@, system: f.system },
            FsEntry::Directory(d) => Node::Dir {
                name: d.name@,
                children: Seq::new(
                    d.content@.len(),
                    |i: int|
                        if 0 <= i < d.content@.len() {
                            d.content@[i].node()
                        } else {
                            Node::File { name: Seq::empty(), text: Seq::empty(), system: false }
                        },
                ),
                system: d.system,
            },
        }
    }
}

/// The values of a sequence of entries.
pub open spec fn nodes(v: Seq<FsEntry>) -> Seq<Node> {
    Seq::new(v.len(), |i: int| v[i].node())
}

impl Directory {
    /// The value of this directory as an entry.
    pub open spec fn node(self) -> Node {
        Node::Dir { name: self.name@, children: nodes(self.content@), system: self.system }
    }
}

pub broadcast proof fn lemma_dir_node(d: Directory)
    ensures
        #[trigger] FsEntry::Directory(d).node() == d.node(),
{
    assert(FsEntry::Directory(d).node()->children =~= nodes(d.content@));
}

/// Replacing an entry replaces its value.
pub broadcast proof fn lemma_nodes_update(v: Seq<FsEntry>, i: int, x: FsEntry)
    requires
        0 <= i < v.len(),
    ensures
        #[trigger] nodes(v.update(i, x)) == nodes(v).update(i, x.node()),
{
    assert(nodes(v.update(i, x)) =~= nodes(v).update(i, x.node()));
}

impl FsEntry {
    /// A copy of this entry and of everything below it.
    pub fn duplicate(&self) -> (r: FsEntry)
        ensures
            r.node() == self.node(),
        decreases self,
    {
        match self {
            FsEntry::File(f) => FsEntry::File(
                File { name: f.name.clone(), content: f.content.clone(), system: f.system },
            ),
            FsEntry::Directory(d) => {
                let content = duplicate_all(&d.content);
                let r = Directory { name: d.name.clone(), content, system: d.system };
                proof {
                    lemma_dir_node(*d);
                    lemma_dir_node(r);
                }
                FsEntry::Directory(r)
            },
        }
    }
}

/// A copy of each entry of `v`, in order.
pub fn duplicate_all(v: &Vec<FsEntry>) -> (r: Vec<FsEntry>)
    ensures
        nodes(r@) == nodes(v@),
    decreases v,
{
    let mut out: Vec<FsEntry> = Vec::new();
    let mut i: usize = 0;
    while i < v.len()
        invariant
            i <= v@.len(),
            nodes(out@) =~= nodes(v@).subrange(0, i as int),
        decreases v@.len() - i,
    {
        proof {
            assert(decreases_to!(*v => v[i as int]));
        }
        let e = v[i].duplicate();
        let ghost before = out@;
        out.push(e);
        assert(nodes(out@) =~= nodes(before).push(e.node()));
        assert(nodes(v@).subrange(0, i + 1) =~= nodes(v@).subrange(0, i as int).push(
            v@[i as int].node(),
        ));
        i = i + 1;
    }
    assert(nodes(v@).subrange(0, v@.len() as int) =~= nodes(v@));
    out
}

} // verus!
