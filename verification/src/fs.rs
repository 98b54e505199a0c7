//! An in-memory tree of directory and file nodes.
//!
//! Every node lives in one growable arena; a handle is the slot index of a
//! node in that arena. Directory entries bind a child name to a slot, and
//! binding an existing name again overwrites the entry in place: the old
//! child keeps its slot and its attributes, it is merely no longer
//! reachable by name (detached, but alive). Inodes are slot number plus
//! one, so they are unique for the lifetime of the tree and never reused.

use vstd::prelude::*;

verus! {

/// Owning identity and fixed permission bits given to every node.
pub const OWNER_UID: u32 = 0;

pub const OWNER_GID: u32 = 55;

pub const DIR_PERM: u16 = 0o550;

pub const FILE_PERM: u16 = 0o440;

pub const BLOCK_SIZE: u32 = 512;

/// A handle to a node: its slot in the tree's arena. Handles may be copied
/// and held freely; a handle stays valid even after the node it names has
/// been overwritten out of its parent directory.
pub type Kid = usize;

/// The capability tag of a node.
#[derive(Debug, Clone, Copy, PartialEq, Eq, Structural)]
pub enum FileKind {
    Directory,
    RegularFile,
}

/// The fixed metadata assigned to a node at creation, sufficient to answer
/// filesystem attribute queries. Timestamps belong to the I/O layer around
/// the tree and are not part of it.
#[derive(Debug, Clone, Copy, PartialEq, Eq, Structural)]
pub struct Attr {
    pub ino: u64,
    pub kind: FileKind,
    pub perm: u16,
    pub nlink: u32,
    pub uid: u32,
    pub gid: u32,
    pub blksize: u32,
}

/// The attributes a directory with inode `ino` is created with.
pub open spec fn dir_attr(ino: u64) -> Attr {
    Attr {
        ino,
        kind: FileKind::Directory,
        perm: DIR_PERM,
        nlink: 2,
        uid: OWNER_UID,
        gid: OWNER_GID,
        blksize: BLOCK_SIZE,
    }
}

/// The attributes a file with inode `ino` is created with.
pub open spec fn file_attr(ino: u64) -> Attr {
    Attr {
        ino,
        kind: FileKind::RegularFile,
        perm: FILE_PERM,
        nlink: 1,
        uid: OWNER_UID,
        gid: OWNER_GID,
        blksize: BLOCK_SIZE,
    }
}

fn new_attr(ino: u64, kind: FileKind, perm: u16, nlink: u32) -> (a: Attr)
    ensures
        a == (Attr { ino, kind, perm, nlink, uid: OWNER_UID, gid: OWNER_GID, blksize: BLOCK_SIZE }),
{
    Attr { ino, kind, perm, nlink, uid: OWNER_UID, gid: OWNER_GID, blksize: BLOCK_SIZE }
}

/// The name-to-slot mapping that a directory's entry list denotes; a later
/// entry for a name would win, though entries are kept unique.
pub open spec fn kids_map_of(s: Seq<(String, Kid)>) -> Map<Seq<char>, Kid>
    decreases s.len(),
{
    if s.len() == 0 {
        Map::<Seq<char>, Kid>::empty()
    } else {
        kids_map_of(s.drop_last()).insert(s.last().0@, s.last().1)
    }
}

/// No two entries bind the same name.
pub open spec fn kid_names_unique(s: Seq<(String, Kid)>) -> bool {
    forall|j1: int, j2: int|
        0 <= j1 < j2 < s.len() ==> (#[trigger] s[j1]).0@ != (#[trigger] s[j2]).0@
}

/// A name is bound exactly when some entry holds it.
pub proof fn lemma_kids_map_contains(s: Seq<(String, Kid)>, n: Seq<char>)
    ensures
        kids_map_of(s).contains_key(n) <==> exists|j: int|
            0 <= j < s.len() && (#[trigger] s[j]).0@ == n,
    decreases s.len(),
{
    if s.len() > 0 {
        lemma_kids_map_contains(s.drop_last(), n);
        if s.last().0@ == n {
            assert(s[s.len() - 1].0@ == n);
        } else {
            if exists|j: int| 0 <= j < s.len() && (#[trigger] s[j]).0@ == n {
                let j = choose|j: int| 0 <= j < s.len() && (#[trigger] s[j]).0@ == n;
                assert(s.drop_last()[j] == s[j]);
            }
            if exists|j: int| 0 <= j < s.drop_last().len() && (#[trigger] s.drop_last()[j]).0@
                == n {
                let j = choose|j: int|
                    0 <= j < s.drop_last().len() && (#[trigger] s.drop_last()[j]).0@ == n;
                assert(s[j] == s.drop_last()[j]);
            }
        }
    }
}

/// A bound name's slot comes from some entry that holds that name.
pub proof fn lemma_kids_map_value(s: Seq<(String, Kid)>, n: Seq<char>)
    requires
        kids_map_of(s).contains_key(n),
    ensures
        exists|j: int|
            0 <= j < s.len() && (#[trigger] s[j]).0@ == n && s[j].1 == kids_map_of(s)[n],
    decreases s.len(),
{
    if s.last().0@ == n {
        assert(s[s.len() - 1].0@ == n && s[s.len() - 1].1 == kids_map_of(s)[n]);
    } else {
        lemma_kids_map_value(s.drop_last(), n);
        let j = choose|j: int|
            0 <= j < s.drop_last().len() && (#[trigger] s.drop_last()[j]).0@ == n
                && s.drop_last()[j].1 == kids_map_of(s.drop_last())[n];
        assert(s[j] == s.drop_last()[j]);
    }
}

/// With unique names, the entry that holds a name gives its slot.
pub proof fn lemma_kids_map_at(s: Seq<(String, Kid)>, j: int)
    requires
        kid_names_unique(s),
        0 <= j < s.len(),
    ensures
        kids_map_of(s).contains_key(s[j].0@),
        kids_map_of(s)[s[j].0@] == s[j].1,
{
    lemma_kids_map_contains(s, s[j].0@);
    lemma_kids_map_value(s, s[j].0@);
    let j2 = choose|j2: int|
        0 <= j2 < s.len() && (#[trigger] s[j2]).0@ == s[j].0@ && s[j2].1 == kids_map_of(
            s,
        )[s[j].0@];
    assert(j2 == j);
}

/// Replacing the entry that holds a name updates exactly that binding.
pub proof fn lemma_kids_map_update(s: Seq<(String, Kid)>, i: int, e: (String, Kid))
    requires
        kid_names_unique(s),
        0 <= i < s.len(),
        s[i].0@ == e.0@,
    ensures
        kids_map_of(s.update(i, e)) == kids_map_of(s).insert(e.0@, e.1),
    decreases s.len(),
{
    let su = s.update(i, e);
    if i == s.len() - 1 {
        assert(su.drop_last() =~= s.drop_last());
        assert(su.last() == e);
        assert(kids_map_of(s.drop_last()).insert(e.0@, e.1) =~= kids_map_of(s.drop_last()).insert(
            s[i].0@,
            s[i].1,
        ).insert(e.0@, e.1));
    } else {
        assert(su.drop_last() =~= s.drop_last().update(i, e));
        assert(su.last() == s.last());
        assert(kid_names_unique(s.drop_last())) by {
            assert(forall|j1: int, j2: int|
                0 <= j1 < j2 < s.drop_last().len() ==> (#[trigger] s.drop_last()[j1]).0@ != (
                #[trigger] s.drop_last()[j2]).0@) by {
                assert(forall|j: int| 0 <= j < s.drop_last().len() ==> (#[trigger] s.drop_last()[j])
                    == s[j]);
            }
        }
        assert(s.drop_last()[i] == s[i]);
        lemma_kids_map_update(s.drop_last(), i, e);
        // the overwritten name differs from the last entry's name
        assert(s[i].0@ != s.last().0@) by {
            assert(s.last() == s[s.len() - 1]);
        }
        assert(kids_map_of(s.drop_last()).insert(e.0@, e.1).insert(s.last().0@, s.last().1)
            =~= kids_map_of(s.drop_last()).insert(s.last().0@, s.last().1).insert(e.0@, e.1));
    }
}

/// Appending an entry for a fresh name adds exactly that binding.
pub proof fn lemma_kids_map_push(s: Seq<(String, Kid)>, e: (String, Kid))
    ensures
        kids_map_of(s.push(e)) == kids_map_of(s).insert(e.0@, e.1),
{
    assert(s.push(e).drop_last() =~= s);
    assert(s.push(e).last() == e);
}

/// A directory node: fixed attributes and a list of named child slots.
#[derive(Debug)]
pub struct Dir {
    attr: Attr,
    kids: Vec<(String, Kid)>,
}

impl Dir {
    /// The entry list, in insertion order.
    pub closed spec fn kid_seq(&self) -> Seq<(String, Kid)> {
        self.kids@
    }

    pub closed spec fn attr_spec(&self) -> Attr {
        self.attr
    }

    /// The mapping from child name to child slot.
    pub open spec fn kids_map(&self) -> Map<Seq<char>, Kid> {
        kids_map_of(self.kid_seq())
    }

    fn new(ino: u64) -> (d: Dir)
        ensures
            d.attr_spec() == dir_attr(ino),
            d.kid_seq() == Seq::<(String, Kid)>::empty(),
            d.kids_map() == Map::<Seq<char>, Kid>::empty(),
    {
        let d = Dir { attr: new_attr(ino, FileKind::Directory, DIR_PERM, 2), kids: Vec::new() };
        proof {
            assert(d.kid_seq() =~= Seq::<(String, Kid)>::empty());
        }
        d
    }

    /// The fixed attributes, as assigned at creation.
    pub fn get_attr(&self) -> (a: &Attr)
        ensures
            *a == self.attr_spec(),
    {
        &self.attr
    }

    /// The entry list, for callers that walk the tree's structure.
    pub fn entries(&self) -> (r: &Vec<(String, Kid)>)
        ensures
            r@ == self.kid_seq(),
    {
        &self.kids
    }

    /// Looks a child name up in the entry list.
    fn lookup_kid(&self, name: &String) -> (r: Option<Kid>)
        requires
            kid_names_unique(self.kid_seq()),
        ensures
            match r {
                Some(k) => self.kids_map().contains_key(name@) && self.kids_map()[name@] == k,
                None => !self.kids_map().contains_key(name@),
            },
    {
        let mut i: usize = 0;
        while i < self.kids.len()
            invariant
                i <= self.kid_seq().len(),
                kid_names_unique(self.kid_seq()),
                forall|j: int| 0 <= j < i ==> (#[trigger] self.kid_seq()[j]).0@ != name@,
            decreases self.kid_seq().len() - i,
        {
            if self.kids[i].0 == *name {
                proof {
                    lemma_kids_map_at(self.kid_seq(), i as int);
                }
                return Some(self.kids[i].1);
            }
            i = i + 1;
        }
        proof {
            lemma_kids_map_contains(self.kid_seq(), name@);
        }
        None
    }

    /// Binds `name` to slot `k`. An existing binding of the same name is
    /// overwritten in place; its old slot is not touched, only unbound.
    fn insert_kid(&mut self, name: &str, k: Kid)
        requires
            kid_names_unique(old(self).kid_seq()),
        ensures
            final(self).attr_spec() == old(self).attr_spec(),
            kid_names_unique(final(self).kid_seq()),
            final(self).kids_map() == old(self).kids_map().insert(name@, k),
            forall|j: int|
                0 <= j < final(self).kid_seq().len() ==> (#[trigger] final(self).kid_seq()[j]).1
                    == k || old(self).kid_seq().contains(final(self).kid_seq()[j]),
    {
        let name_s: String = name.to_owned();
        let ghost ks0 = self.kid_seq();
        let mut i: usize = 0;
        while i < self.kids.len()
            invariant
                *self == *old(self),
                name_s@ == name@,
                i <= ks0.len(),
                ks0 == self.kid_seq(),
                kid_names_unique(ks0),
                forall|j: int| 0 <= j < i ==> (#[trigger] ks0[j]).0@ != name@,
            decreases ks0.len() - i,
        {
            if self.kids[i].0 == name_s {
                self.kids[i] = (name_s, k);
                proof {
                    assert(self.kid_seq() =~= ks0.update(i as int, (name_s, k)));
                    lemma_kids_map_update(ks0, i as int, (name_s, k));
                    assert forall|j1: int, j2: int|
                        0 <= j1 < j2 < self.kid_seq().len() implies (
                    #[trigger] self.kid_seq()[j1]).0@ != (#[trigger] self.kid_seq()[j2]).0@ by {
                        assert(ks0[j1].0@ != ks0[j2].0@);
                    }
                    assert forall|j: int| 0 <= j < self.kid_seq().len() implies (
                    #[trigger] self.kid_seq()[j]).1 == k || ks0.contains(self.kid_seq()[j]) by {
                        if j != i {
                            assert(self.kid_seq()[j] == ks0[j]);
                        }
                    }
                }
                return ;
            }
            i = i + 1;
        }
        proof {
            lemma_kids_map_contains(ks0, name@);
        }
        self.kids.push((name_s, k));
        proof {
            assert(self.kid_seq() =~= ks0.push((name_s, k)));
            lemma_kids_map_push(ks0, (name_s, k));
            assert forall|j1: int, j2: int| 0 <= j1 < j2 < self.kid_seq().len() implies (
            #[trigger] self.kid_seq()[j1]).0@ != (#[trigger] self.kid_seq()[j2]).0@ by {
                if j2 < ks0.len() {
                    assert(ks0[j1].0@ != ks0[j2].0@);
                } else {
                    assert(self.kid_seq()[j2] == (name_s, k));
                    assert(ks0[j1].0@ != name@);
                }
            }
            assert forall|j: int| 0 <= j < self.kid_seq().len() implies (
            #[trigger] self.kid_seq()[j]).1 == k || ks0.contains(self.kid_seq()[j]) by {
                if j < ks0.len() {
                    assert(self.kid_seq()[j] == ks0[j]);
                }
            }
        }
    }
}

/// A file node: fixed attributes and an opaque payload.
#[derive(Debug)]
pub struct File {
    attr: Attr,
    data: String,
}

impl File {
    pub closed spec fn attr_spec(&self) -> Attr {
        self.attr
    }

    /// The payload the file was created with.
    pub closed spec fn data_spec(&self) -> Seq<char> {
        self.data@
    }

    fn new(ino: u64, dat: &str) -> (f: File)
        ensures
            f.attr_spec() == file_attr(ino),
            f.data_spec() == dat@,
    {
        File { attr: new_attr(ino, FileKind::RegularFile, FILE_PERM, 1), data: dat.to_owned() }
    }

    /// The fixed attributes, as assigned at creation.
    pub fn get_attr(&self) -> (a: &Attr)
        ensures
            *a == self.attr_spec(),
    {
        &self.attr
    }

    /// The payload.
    pub fn data(&self) -> (d: &String)
        ensures
            d@ == self.data_spec(),
    {
        &self.data
    }
}

/// One node of the tree: a directory or a file.
#[derive(Debug)]
pub enum Node {
    Dir(Dir),
    File(File),
}

impl Node {
    pub open spec fn attr_spec(&self) -> Attr {
        match self {
            Node::Dir(d) => d.attr_spec(),
            Node::File(f) => f.attr_spec(),
        }
    }

    /// The fixed attributes, whichever kind the node is.
    pub fn get_attr(&self) -> (a: &Attr)
        ensures
            *a == self.attr_spec(),
    {
        match self {
            Node::Dir(d) => d.get_attr(),
            Node::File(f) => f.get_attr(),
        }
    }

    pub fn is_dir(&self) -> (r: bool)
        ensures
            r == (*self is Dir),
    {
        match self {
            Node::Dir(_) => true,
            Node::File(_) => false,
        }
    }

    pub fn is_file(&self) -> (r: bool)
        ensures
            r == (*self is File),
    {
        match self {
            Node::Dir(_) => false,
            Node::File(_) => true,
        }
    }
}

/// The tree: a root directory in slot 0 and an inode allocator that only
/// ever increments, primed so the root's inode is 1 and the next node gets
/// inode 2. Nodes are never removed from the arena, so a slot handed out
/// once stays valid for the tree's whole life.
#[derive(Debug)]
pub struct Fs {
    inode_alloc: u64,
    nodes: Vec<Node>,
}

impl Fs {
    /// The arena of nodes; a handle indexes into it.
    pub closed spec fn arena(&self) -> Seq<Node> {
        self.nodes@
    }

    /// The allocator's last handed-out inode.
    pub closed spec fn last_inode(&self) -> u64 {
        self.inode_alloc
    }

    /// Well-formedness: the root is a directory with inode 1; every node's
    /// attributes are exactly the fixed ones for its slot and kind; every
    /// directory entry points at a slot allocated after its directory (so
    /// the structure is acyclic) and no directory binds a name twice.
    pub open spec fn wf(&self) -> bool {
        &&& 1 <= self.arena().len()
        &&& self.last_inode() as int == self.arena().len()
        &&& self.arena()[0] is Dir
        &&& forall|i: int|
            0 <= i < self.arena().len() ==> (#[trigger] self.arena()[i]).attr_spec() == (
            if self.arena()[i] is Dir {
                dir_attr((i + 1) as u64)
            } else {
                file_attr((i + 1) as u64)
            })
        &&& forall|i: int|
            0 <= i < self.arena().len() ==> dir_entries_ok(
                #[trigger] self.arena()[i],
                i,
                self.arena().len() as int,
            )
    }

    /// A tree with only a root directory, inode 1.
    pub fn new() -> (fs: Fs)
        ensures
            fs.wf(),
            fs.arena().len() == 1,
            fs.arena()[0] is Dir,
            fs.arena()[0]->Dir_0.kids_map() == Map::<Seq<char>, Kid>::empty(),
    {
        let mut nodes: Vec<Node> = Vec::new();
        nodes.push(Node::Dir(Dir::new(1)));
        Fs { inode_alloc: 1, nodes }
    }

    /// The handle of the root directory.
    pub fn root(&self) -> (r: Kid)
        ensures
            r == 0,
    {
        0
    }

    /// How many nodes the arena holds; handles below this count are valid.
    pub fn node_count(&self) -> (n: usize)
        ensures
            n == self.arena().len(),
    {
        self.nodes.len()
    }

    /// The node a handle names, or nothing for a handle this tree never
    /// handed out.
    pub fn get_node(&self, k: Kid) -> (r: Option<&Node>)
        ensures
            match r {
                Some(n) => k < self.arena().len() && *n == self.arena()[k as int],
                None => k >= self.arena().len(),
            },
    {
        if k < self.nodes.len() {
            Some(&self.nodes[k])
        } else {
            None
        }
    }

    fn alloc_inode(&mut self) -> (ino: u64)
        requires
            old(self).last_inode() < u64::MAX,
        ensures
            final(self).last_inode() == old(self).last_inode() + 1,
            ino == final(self).last_inode(),
            final(self).arena() == old(self).arena(),
    {
        self.inode_alloc = self.inode_alloc + 1;
        self.inode_alloc
    }

    /// Allocates the next inode, appends `node` to the arena and binds it
    /// under `name` in `parent`. Fails, changing nothing, when `parent` is
    /// not a directory handle of this tree.
    fn attach(&mut self, parent: Kid, name: &str, node: Node) -> (r: Option<Kid>)
        requires
            old(self).wf(),
            old(self).arena().len() < u64::MAX,
            node.attr_spec() == (if node is Dir {
                dir_attr((old(self).arena().len() + 1) as u64)
            } else {
                file_attr((old(self).arena().len() + 1) as u64)
            }),
            node is Dir ==> node->Dir_0.kid_seq() == Seq::<(String, Kid)>::empty(),
        ensures
            final(self).wf(),
            r is Some <==> parent < old(self).arena().len() && old(self).arena()[parent as int]
                is Dir,
            r is None ==> *final(self) == *old(self),
            r is Some ==> ({
                let k = r->Some_0;
                &&& k == old(self).arena().len()
                &&& final(self).arena().len() == old(self).arena().len() + 1
                &&& final(self).arena()[k as int] == node
                &&& (forall|i: int|
                    0 <= i < old(self).arena().len() && i != parent ==> final(self).arena()[i]
                        == old(self).arena()[i])
                &&& final(self).arena()[parent as int] is Dir
                &&& final(self).arena()[parent as int].attr_spec() == old(self).arena()[parent as int].attr_spec()
                &&& final(self).arena()[parent as int]->Dir_0.kids_map() == old(self).arena()[parent as int]->Dir_0.kids_map().insert(name@, k)
            }),
    {
        if parent >= self.nodes.len() {
            return None;
        }
        if !self.nodes[parent].is_dir() {
            return None;
        }
        let ghost arena0 = self.arena();
        let _ino = self.alloc_inode();
        let k = self.nodes.len();
        self.nodes.push(node);
        let ghost arena1 = self.arena();
        let slot = &mut self.nodes[parent];
        match slot {
            Node::Dir(d) => {
                proof {
                    assert(arena1[parent as int] == arena0[parent as int]);
                    assert(dir_entries_ok(arena0[parent as int], parent as int, arena0.len() as int));
                }
                d.insert_kid(name, k);
            },
            Node::File(_) => {
                proof {
                    assert(arena1[parent as int] == arena0[parent as int]);
                    assert(false);
                }
            },
        }
        proof {
            let arena2 = self.arena();
            assert(arena2 =~= arena1.update(parent as int, arena2[parent as int]));
            assert(arena2.len() == arena0.len() + 1);
            assert(arena2[k as int] == node);
            assert forall|i: int| 0 <= i < arena0.len() && i != parent implies arena2[i]
                == arena0[i] by {
                assert(arena1[i] == arena0[i]);
            }
            let d0 = arena0[parent as int]->Dir_0;
            let d2 = arena2[parent as int]->Dir_0;
            assert(d2.kids_map() == d0.kids_map().insert(name@, k as Kid));
            // the tree stays well formed
            assert(final(self).wf()) by {
                let len2 = arena2.len() as int;
                assert(arena2[0] is Dir);
                assert forall|i: int| 0 <= i < len2 implies (#[trigger] arena2[i]).attr_spec()
                    == (if arena2[i] is Dir {
                    dir_attr((i + 1) as u64)
                } else {
                    file_attr((i + 1) as u64)
                }) by {
                    if i == k as int {
                        assert(arena2[i] == node);
                    } else if i == parent as int {
                        assert(arena2[i].attr_spec() == arena0[i].attr_spec());
                    } else {
                        assert(arena2[i] == arena0[i]);
                    }
                }
                assert forall|i: int| 0 <= i < len2 implies dir_entries_ok(
                    #[trigger] arena2[i],
                    i,
                    len2,
                ) by {
                    if i == k as int {
                        assert(arena2[i] == node);
                        if node is Dir {
                            assert(node->Dir_0.kid_seq().len() == 0);
                        }
                    } else if i == parent as int {
                        if arena2[i] is Dir {
                            let ks0 = d0.kid_seq();
                            let ks2 = d2.kid_seq();
                            assert forall|j: int| 0 <= j < ks2.len() implies i < (
                            #[trigger] ks2[j]).1 < len2 by {
                                if ks2[j].1 == k {
                                    assert(parent < k);
                                } else {
                                    assert(ks0.contains(ks2[j]));
                                    let j0 = choose|j0: int|
                                        0 <= j0 < ks0.len() && ks0[j0] == ks2[j];
                                    assert(i < ks0[j0].1 < arena0.len());
                                }
                            }
                        }
                    } else {
                        assert(arena2[i] == arena0[i]);
                        if arena2[i] is Dir {
                            let ks = arena2[i]->Dir_0.kid_seq();
                            assert(dir_entries_ok(arena0[i], i, arena0.len() as int));
                            assert forall|j: int| 0 <= j < ks.len() implies i < (
                            #[trigger] ks[j]).1 < len2 by {
                                assert(i < ks[j].1 < arena0.len());
                            }
                        }
                    }
                }
            }
        }
        Some(k)
    }

    /// Creates a file holding `dat` under `parent`, binding it to `name`
    /// (overwriting an entry already bound to `name`: the old child keeps
    /// its slot and attributes but is no longer reachable by this name).
    /// Returns the new node's handle, or nothing when `parent` is not a
    /// directory handle of this tree, in which case nothing changes.
    pub fn new_file(&mut self, parent: Kid, name: &str, dat: &str) -> (r: Option<Kid>)
        requires
            old(self).wf(),
            old(self).arena().len() < u64::MAX,
        ensures
            final(self).wf(),
            r is Some <==> parent < old(self).arena().len() && old(self).arena()[parent as int]
                is Dir,
            r is None ==> *final(self) == *old(self),
            r is Some ==> ({
                let k = r->Some_0;
                &&& k == old(self).arena().len()
                &&& final(self).arena().len() == old(self).arena().len() + 1
                &&& final(self).arena()[k as int] is File
                &&& final(self).arena()[k as int].attr_spec() == file_attr((k + 1) as u64)
                &&& final(self).arena()[k as int]->File_0.data_spec() == dat@
                &&& (forall|i: int|
                    0 <= i < old(self).arena().len() && i != parent ==> final(self).arena()[i]
                        == old(self).arena()[i])
                &&& final(self).arena()[parent as int] is Dir
                &&& final(self).arena()[parent as int].attr_spec() == old(self).arena()[parent as int].attr_spec()
                &&& final(self).arena()[parent as int]->Dir_0.kids_map() == old(self).arena()[parent as int]->Dir_0.kids_map().insert(name@, k)
            }),
    {
        let ino = (self.nodes.len() as u64) + 1;
        let f = File::new(ino, dat);
        self.attach(parent, name, Node::File(f))
    }

    /// Creates an empty directory under `parent`, binding it to `name`;
    /// the contract is that of `new_file`, with a directory node instead.
    pub fn new_dir(&mut self, parent: Kid, name: &str) -> (r: Option<Kid>)
        requires
            old(self).wf(),
            old(self).arena().len() < u64::MAX,
        ensures
            final(self).wf(),
            r is Some <==> parent < old(self).arena().len() && old(self).arena()[parent as int]
                is Dir,
            r is None ==> *final(self) == *old(self),
            r is Some ==> ({
                let k = r->Some_0;
                &&& k == old(self).arena().len()
                &&& final(self).arena().len() == old(self).arena().len() + 1
                &&& final(self).arena()[k as int] is Dir
                &&& final(self).arena()[k as int].attr_spec() == dir_attr((k + 1) as u64)
                &&& final(self).arena()[k as int]->Dir_0.kids_map() == Map::<Seq<char>, Kid>::empty()
                &&& (forall|i: int|
                    0 <= i < old(self).arena().len() && i != parent ==> final(self).arena()[i]
                        == old(self).arena()[i])
                &&& final(self).arena()[parent as int] is Dir
                &&& final(self).arena()[parent as int].attr_spec() == old(self).arena()[parent as int].attr_spec()
                &&& final(self).arena()[parent as int]->Dir_0.kids_map() == old(self).arena()[parent as int]->Dir_0.kids_map().insert(name@, k)
            }),
    {
        let ino = (self.nodes.len() as u64) + 1;
        let d = Dir::new(ino);
        self.attach(parent, name, Node::Dir(d))
    }
}

/// The segment that names the current directory.
pub open spec fn is_dot(seg: Seq<char>) -> bool {
    seg.len() == 1 && seg[0] == '.'
}

/// The segment that names the parent recorded by this traversal.
pub open spec fn is_dotdot(seg: Seq<char>) -> bool {
    seg.len() == 2 && seg[0] == '.' && seg[1] == '.'
}

fn seg_is_dot(comp: &String) -> (r: bool)
    ensures
        r == is_dot(comp@),
{
    let s = comp.as_str();
    s.unicode_len() == 1 && s.get_char(0) == '.'
}

fn seg_is_dotdot(comp: &String) -> (r: bool)
    ensures
        r == is_dotdot(comp@),
{
    let s = comp.as_str();
    s.unicode_len() == 2 && s.get_char(0) == '.' && s.get_char(1) == '.'
}

/// One resolution, step by step: from a current node and the parent stack
/// this call has built so far, follow the remaining segments and give the
/// final stack and node. Empty segments are skipped; any other segment
/// demands that the current node be a directory reachable in the arena;
/// `.` keeps the current node; `..` pops the stack when it is non-empty
/// (there is no ascent above the traversal's own start) and otherwise does
/// nothing; any other segment must be bound in the current directory, which
/// is pushed on the stack before moving to the child.
pub open spec fn resolve_state(
    nodes: Seq<Node>,
    stack: Seq<Kid>,
    cur: Kid,
    segs: Seq<Seq<char>>,
) -> Option<(Seq<Kid>, Kid)>
    decreases segs.len(),
{
    if segs.len() == 0 {
        Some((stack, cur))
    } else {
        let seg = segs[0];
        let rest = segs.drop_first();
        if seg.len() == 0 {
            resolve_state(nodes, stack, cur, rest)
        } else if !(cur < nodes.len() && nodes[cur as int] is Dir) {
            None
        } else if is_dot(seg) {
            resolve_state(nodes, stack, cur, rest)
        } else if is_dotdot(seg) {
            if stack.len() == 0 {
                resolve_state(nodes, stack, cur, rest)
            } else {
                resolve_state(nodes, stack.drop_last(), stack.last(), rest)
            }
        } else {
            let km = nodes[cur as int]->Dir_0.kids_map();
            if km.contains_key(seg) {
                resolve_state(nodes, stack.push(cur), km[seg], rest)
            } else {
                None
            }
        }
    }
}

/// The node that the segments name when resolution starts at `start` with
/// an empty parent stack, or nothing when resolution fails.
pub open spec fn resolve_spec(nodes: Seq<Node>, start: Kid, segs: Seq<Seq<char>>) -> Option<Kid> {
    match resolve_state(nodes, Seq::<Kid>::empty(), start, segs) {
        Some(st) => Some(st.1),
        None => None,
    }
}

impl Fs {
    /// Follows `comps` from the node `start` names, with `.`, `..` and
    /// empty-segment handling as `resolve_state` states, and returns the
    /// final node's handle or nothing when a segment is missing or met on
    /// a non-directory. Resolution never mutates the tree, and the parent
    /// stack it keeps is local to the one call.
    pub fn resolve(&self, start: Kid, comps: &Vec<String>) -> (r: Option<Kid>)
        requires
            self.wf(),
        ensures
            r == resolve_spec(self.arena(), start, comps.deep_view()),
    {
        let ghost all = comps.deep_view();
        let mut parents: Vec<Kid> = Vec::new();
        let mut cur: Kid = start;
        let mut idx: usize = 0;
        proof {
            assert(all.skip(0) =~= all);
            assert(parents@ =~= Seq::<Kid>::empty());
        }
        while idx < comps.len()
            invariant
                self.wf(),
                idx <= comps.len(),
                all == comps.deep_view(),
                resolve_state(self.arena(), Seq::<Kid>::empty(), start, all) == resolve_state(
                    self.arena(),
                    parents@,
                    cur,
                    all.skip(idx as int),
                ),
            decreases comps.len() - idx,
        {
            let ghost rem = all.skip(idx as int);
            proof {
                assert(rem.len() > 0);
                assert(rem[0] == all[idx as int]);
                assert(all[idx as int] == comps[idx as int].deep_view());
                assert(rem.drop_first() =~= all.skip(idx as int + 1));
            }
            let comp = &comps[idx];
            if comp.as_str().is_empty() {
                // an empty segment is discarded
            } else if cur >= self.nodes.len() {
                proof {
                    assert(resolve_state(self.arena(), parents@, cur, rem) is None);
                }
                return None;
            } else {
                match &self.nodes[cur] {
                    Node::File(_) => {
                        // a non-directory cannot have further segments resolved under it
                        proof {
                            assert(resolve_state(self.arena(), parents@, cur, rem) is None);
                        }
                        return None;
                    },
                    Node::Dir(d) => {
                        if seg_is_dot(comp) {
                            // `.`: the current node is unchanged
                        } else if seg_is_dotdot(comp) {
                            if let Some(p) = parents.pop() {
                                cur = p;
                            }
                        } else {
                            proof {
                                assert(dir_entries_ok(
                                    self.arena()[cur as int],
                                    cur as int,
                                    self.arena().len() as int,
                                ));
                            }
                            match d.lookup_kid(comp) {
                                Some(kk) => {
                                    parents.push(cur);
                                    cur = kk;
                                },
                                None => {
                                    proof {
                                        assert(resolve_state(self.arena(), parents@, cur, rem)
                                            is None);
                                    }
                                    return None;
                                },
                            }
                        }
                    },
                }
            }
            idx = idx + 1;
        }
        proof {
            assert(all.skip(comps.len() as int) =~= Seq::<Seq<char>>::empty());
        }
        Some(cur)
    }

    /// Follows `comps` from the root directory.
    pub fn walk(&self, comps: Vec<String>) -> (r: Option<Kid>)
        requires
            self.wf(),
        ensures
            r == resolve_spec(self.arena(), 0, comps.deep_view()),
    {
        self.resolve(0, &comps)
    }
}

/// Entries of a directory node point strictly forward in the arena and
/// bind distinct names.
pub open spec fn dir_entries_ok(n: Node, i: int, len: int) -> bool {
    n is Dir ==> {
        let ks = n->Dir_0.kid_seq();
        &&& (forall|j: int| 0 <= j < ks.len() ==> i < (#[trigger] ks[j]).1 < len)
        &&& kid_names_unique(ks)
    }
}

/// Every child binding of a directory node points below `len`.
pub open spec fn node_kids_bounded(n: Node, len: int) -> bool {
    n is Dir ==> forall|s: Seq<char>|
        #[trigger] n->Dir_0.kids_map().dom().contains(s) ==> n->Dir_0.kids_map()[s] < len
}

/// Every child binding anywhere in the arena points below `len`.
pub open spec fn kids_bounded(nodes: Seq<Node>, len: int) -> bool {
    forall|i: int| 0 <= i < nodes.len() ==> node_kids_bounded(#[trigger] nodes[i], len)
}

/// Every handle on a parent stack points below `len`.
pub open spec fn stack_bounded(stack: Seq<Kid>, len: int) -> bool {
    forall|i: int| 0 <= i < stack.len() ==> (#[trigger] stack[i]) < len
}

/// In a well-formed tree, every binding points into the arena.
pub proof fn lemma_wf_kids_bounded(fs: &Fs)
    requires
        fs.wf(),
    ensures
        kids_bounded(fs.arena(), fs.arena().len() as int),
{
    let nodes = fs.arena();
    let len = nodes.len() as int;
    assert forall|i: int| 0 <= i < nodes.len() implies node_kids_bounded(
        #[trigger] nodes[i],
        len,
    ) by {
        let n = nodes[i];
        if n is Dir {
            assert(dir_entries_ok(nodes[i], i, len));
            let ks = n->Dir_0.kid_seq();
            assert forall|t: Seq<char>| #[trigger] n->Dir_0.kids_map().dom().contains(t) implies n
                ->Dir_0.kids_map()[t] < len by {
                lemma_kids_map_value(ks, t);
                let j = choose|j: int|
                    0 <= j < ks.len() && (#[trigger] ks[j]).0@ == t && ks[j].1 == kids_map_of(
                        ks,
                    )[t];
                assert(i < ks[j].1 < len);
            }
        }
    }
}

/// Resolving a concatenation resolves the first part and goes on from the
/// state it reached.
pub proof fn lemma_resolve_state_append(
    nodes: Seq<Node>,
    stack: Seq<Kid>,
    cur: Kid,
    segs1: Seq<Seq<char>>,
    segs2: Seq<Seq<char>>,
)
    ensures
        resolve_state(nodes, stack, cur, segs1 + segs2) == (match resolve_state(
            nodes,
            stack,
            cur,
            segs1,
        ) {
            Some(st) => resolve_state(nodes, st.0, st.1, segs2),
            None => None,
        }),
    decreases segs1.len(),
{
    if segs1.len() == 0 {
        assert(segs1 + segs2 =~= segs2);
    } else {
        let segs = segs1 + segs2;
        assert(segs[0] == segs1[0]);
        assert(segs.drop_first() =~= segs1.drop_first() + segs2);
        let seg = segs1[0];
        let rest1 = segs1.drop_first();
        if seg.len() == 0 {
            lemma_resolve_state_append(nodes, stack, cur, rest1, segs2);
        } else if !(cur < nodes.len() && nodes[cur as int] is Dir) {
        } else if is_dot(seg) {
            lemma_resolve_state_append(nodes, stack, cur, rest1, segs2);
        } else if is_dotdot(seg) {
            if stack.len() == 0 {
                lemma_resolve_state_append(nodes, stack, cur, rest1, segs2);
            } else {
                lemma_resolve_state_append(nodes, stack.drop_last(), stack.last(), rest1, segs2);
            }
        } else {
            let km = nodes[cur as int]->Dir_0.kids_map();
            if km.contains_key(seg) {
                lemma_resolve_state_append(nodes, stack.push(cur), km[seg], rest1, segs2);
            }
        }
    }
}

/// Resolving `["."]` from any directory handle returns that same handle.
pub proof fn lemma_resolve_dot(nodes: Seq<Node>, h: Kid)
    requires
        h < nodes.len(),
        nodes[h as int] is Dir,
    ensures
        resolve_spec(nodes, h, seq![seq!['.']]) == Some(h),
{
    let segs = seq![seq!['.']];
    assert(segs[0] =~= seq!['.']);
    assert(is_dot(segs[0]));
    let empty_stack = Seq::<Kid>::empty();
    let rest = segs.drop_first();
    assert(rest =~= Seq::<Seq<char>>::empty());
    assert(resolve_state(nodes, empty_stack, h, rest) == Some((empty_stack, h)));
    assert(resolve_state(nodes, empty_stack, h, segs) == resolve_state(nodes, empty_stack, h, rest));
}

/// Resolving `[".."]` from a traversal that has recorded no parents
/// returns the start handle unchanged: there is no ascent above the
/// resolution's own starting point.
pub proof fn lemma_resolve_dotdot_at_start(nodes: Seq<Node>, h: Kid)
    requires
        h < nodes.len(),
        nodes[h as int] is Dir,
    ensures
        resolve_spec(nodes, h, seq![seq!['.', '.']]) == Some(h),
{
    let segs = seq![seq!['.', '.']];
    assert(segs[0] =~= seq!['.', '.']);
    assert(!is_dot(segs[0]));
    assert(is_dotdot(segs[0]));
    let empty_stack = Seq::<Kid>::empty();
    let rest = segs.drop_first();
    assert(rest =~= Seq::<Seq<char>>::empty());
    assert(resolve_state(nodes, empty_stack, h, rest) == Some((empty_stack, h)));
    assert(resolve_state(nodes, empty_stack, h, segs) == resolve_state(nodes, empty_stack, h, rest));
}

/// The relation between the arenas before and after a creation under
/// directory `q`: the fresh node may take any new slot, `q`'s bindings
/// gain `m` bound to `k`, and every other existing node is untouched.
/// This is exactly what `new_file` and `new_dir` ensure on success.
pub open spec fn creates_entry(
    nodes0: Seq<Node>,
    nodes1: Seq<Node>,
    q: Kid,
    m: Seq<char>,
    k: Kid,
) -> bool {
    &&& q < nodes0.len()
    &&& nodes0.len() <= nodes1.len()
    &&& nodes0[q as int] is Dir
    &&& nodes1[q as int] is Dir
    &&& nodes1[q as int]->Dir_0.kids_map() == nodes0[q as int]->Dir_0.kids_map().insert(m, k)
    &&& forall|i: int| 0 <= i < nodes0.len() && i != q ==> nodes1[i] == nodes0[i]
}

/// Creating a node under a name its directory did not yet hold preserves
/// every resolution that succeeded before the creation: the new binding
/// can never be the one a surviving traversal step took.
pub proof fn lemma_resolve_preserved_by_create(
    nodes0: Seq<Node>,
    nodes1: Seq<Node>,
    q: Kid,
    m: Seq<char>,
    k: Kid,
    stack: Seq<Kid>,
    cur: Kid,
    segs: Seq<Seq<char>>,
)
    requires
        creates_entry(nodes0, nodes1, q, m, k),
        !nodes0[q as int]->Dir_0.kids_map().contains_key(m),
        kids_bounded(nodes0, nodes0.len() as int),
        cur < nodes0.len(),
        stack_bounded(stack, nodes0.len() as int),
        resolve_state(nodes0, stack, cur, segs) is Some,
    ensures
        resolve_state(nodes1, stack, cur, segs) == resolve_state(nodes0, stack, cur, segs),
    decreases segs.len(),
{
    if segs.len() > 0 {
        let seg = segs[0];
        let rest = segs.drop_first();
        if cur != q {
            assert(nodes1[cur as int] == nodes0[cur as int]);
        }
        if seg.len() == 0 {
            lemma_resolve_preserved_by_create(nodes0, nodes1, q, m, k, stack, cur, rest);
        } else {
            assert(nodes0[cur as int] is Dir);
            assert(nodes1[cur as int] is Dir);
            if is_dot(seg) {
                lemma_resolve_preserved_by_create(nodes0, nodes1, q, m, k, stack, cur, rest);
            } else if is_dotdot(seg) {
                if stack.len() == 0 {
                    lemma_resolve_preserved_by_create(nodes0, nodes1, q, m, k, stack, cur, rest);
                } else {
                    assert(stack_bounded(stack.drop_last(), nodes0.len() as int)) by {
                        assert(forall|i: int|
                            0 <= i < stack.drop_last().len() ==> (#[trigger] stack.drop_last()[i])
                                == stack[i]);
                    }
                    lemma_resolve_preserved_by_create(
                        nodes0,
                        nodes1,
                        q,
                        m,
                        k,
                        stack.drop_last(),
                        stack.last(),
                        rest,
                    );
                }
            } else {
                let km0 = nodes0[cur as int]->Dir_0.kids_map();
                let km1 = nodes1[cur as int]->Dir_0.kids_map();
                assert(km0.contains_key(seg));
                if cur == q {
                    assert(seg != m);
                    assert(km1.contains_key(seg) && km1[seg] == km0[seg]);
                } else {
                    assert(km1 == km0);
                }
                let nxt = km0[seg];
                assert(node_kids_bounded(nodes0[cur as int], nodes0.len() as int));
                assert(km0.dom().contains(seg));
                assert(nxt < nodes0.len());
                assert(stack_bounded(stack.push(cur), nodes0.len() as int)) by {
                    assert(forall|i: int|
                        0 <= i < stack.len() ==> (#[trigger] stack.push(cur)[i]) == stack[i]);
                    assert(stack.push(cur)[stack.len() as int] == cur);
                }
                lemma_resolve_preserved_by_create(
                    nodes0,
                    nodes1,
                    q,
                    m,
                    k,
                    stack.push(cur),
                    nxt,
                    rest,
                );
            }
        }
    }
}

/// Overwriting a bound name detaches the previous child without touching
/// it: the old child's node, and with it its attributes, is unchanged at
/// its slot; only the name now leads to the new slot.
pub proof fn lemma_overwrite_detaches(
    nodes0: Seq<Node>,
    nodes1: Seq<Node>,
    q: Kid,
    m: Seq<char>,
    k: Kid,
)
    requires
        creates_entry(nodes0, nodes1, q, m, k),
        nodes0[q as int]->Dir_0.kids_map().contains_key(m),
        k >= nodes0.len(),
        kids_bounded(nodes0, nodes0.len() as int),
    ensures
        ({
            let j = nodes0[q as int]->Dir_0.kids_map()[m];
            &&& j < nodes0.len()
            &&& nodes1[q as int]->Dir_0.kids_map()[m] == k
            &&& k != j
            &&& (j != q ==> nodes1[j as int] == nodes0[j as int])
        }),
{
    assert(node_kids_bounded(nodes0[q as int], nodes0.len() as int));
    assert(nodes0[q as int]->Dir_0.kids_map().dom().contains(m));
}

/// Creating a node and then resolving its full path finds it: when `segs`
/// resolves from `start` to the directory `q`, and a creation binds a
/// plain fresh name `m` in `q` to the new slot `k`, then after the
/// creation `segs` still resolves to `q` and `segs` extended by `m`
/// resolves to `k`. Together with the contracts of `new_file` and
/// `new_dir` this says that the exact path of names used to create a node
/// leads back to it, as long as no later creation overwrites a name on
/// that path.
pub proof fn lemma_create_then_resolve(
    nodes0: Seq<Node>,
    nodes1: Seq<Node>,
    q: Kid,
    m: Seq<char>,
    k: Kid,
    start: Kid,
    segs: Seq<Seq<char>>,
)
    requires
        creates_entry(nodes0, nodes1, q, m, k),
        !nodes0[q as int]->Dir_0.kids_map().contains_key(m),
        kids_bounded(nodes0, nodes0.len() as int),
        start < nodes0.len(),
        m.len() > 0,
        !is_dot(m),
        !is_dotdot(m),
        resolve_spec(nodes0, start, segs) == Some(q),
    ensures
        resolve_spec(nodes1, start, segs) == Some(q),
        resolve_spec(nodes1, start, segs.push(m)) == Some(k),
{
    let empty_stack = Seq::<Kid>::empty();
    assert(stack_bounded(empty_stack, nodes0.len() as int));
    let st0 = resolve_state(nodes0, empty_stack, start, segs);
    assert(st0 is Some && st0->Some_0.1 == q);
    lemma_resolve_preserved_by_create(nodes0, nodes1, q, m, k, empty_stack, start, segs);
    assert(segs.push(m) =~= segs + seq![m]);
    lemma_resolve_state_append(nodes1, empty_stack, start, segs, seq![m]);
    let st = st0->Some_0;
    assert(seq![m][0] == m);
    assert(seq![m].drop_first() =~= Seq::<Seq<char>>::empty());
    assert(q < nodes1.len());
    assert(nodes1[q as int] is Dir);
    let km1 = nodes1[q as int]->Dir_0.kids_map();
    assert(km1.contains_key(m) && km1[m] == k);
    let rest = seq![m].drop_first();
    assert(rest =~= Seq::<Seq<char>>::empty());
    assert(resolve_state(nodes1, st.0.push(q), k, rest) == Some((st.0.push(q), k)));
    assert(resolve_state(nodes1, st.0, q, seq![m]) == resolve_state(nodes1, st.0.push(q), k, rest));
}

/// The same, said of whole trees: in a well-formed tree, after a creation
/// (`new_file` or `new_dir` returning the fresh handle `k` for a name `m`
/// its parent `q` did not hold), the path of names that led to `q` still
/// leads to `q`, and extended by `m` it leads to the new node.
pub proof fn lemma_fs_create_then_resolve(
    fs0: &Fs,
    fs1: &Fs,
    q: Kid,
    m: Seq<char>,
    k: Kid,
    segs: Seq<Seq<char>>,
)
    requires
        fs0.wf(),
        creates_entry(fs0.arena(), fs1.arena(), q, m, k),
        !fs0.arena()[q as int]->Dir_0.kids_map().contains_key(m),
        m.len() > 0,
        !is_dot(m),
        !is_dotdot(m),
        resolve_spec(fs0.arena(), 0, segs) == Some(q),
    ensures
        resolve_spec(fs1.arena(), 0, segs) == Some(q),
        resolve_spec(fs1.arena(), 0, segs.push(m)) == Some(k),
{
    lemma_wf_kids_bounded(fs0);
    lemma_create_then_resolve(fs0.arena(), fs1.arena(), q, m, k, 0, segs);
}

} // verus!
