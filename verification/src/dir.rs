use vstd::prelude::*;
use crate::dir_lemmas::{
    lemma_insert_restores, lemma_locate, lemma_locate_dir, lemma_relocate_wf, lemma_remove_wf,
    lemma_resolve_path, lemma_search_prune, lemma_with_node_wf,
};
use crate::error::TreeError;
use crate::path::{is_parent, rebased, TreePath};

verus! {

/// What a directory is, as a value: its path and its entries in order.
pub struct Tree {
    pub path: Seq<Seq<char>>,
    pub children: Seq<Node>,
}

/// What an entry of the tree is, as a value.
pub enum Node {
    File(Seq<Seq<char>>),
    Dir(Tree),
}

impl Node {
    /// The absolute path that the entry holds.
    pub open spec fn path(self) -> Seq<Seq<char>> {
        match self {
            Node::File(path) => path,
            Node::Dir(tree) => tree.path,
        }
    }

    /// Every entry below this one lies directly under the directory that holds it.
    pub open spec fn wf(self) -> bool {
        match self {
            Node::File(_) => true,
            Node::Dir(tree) => tree.wf(),
        }
    }

    /// The entry with the first `depth` names of its path, and of every path
    /// below it, replaced by `base`.
    pub open spec fn rebase(self, depth: int, base: Seq<Seq<char>>) -> Node
        decreases self,
    {
        match self {
            Node::File(path) => Node::File(rebased(path, depth, base)),
            Node::Dir(tree) => Node::Dir(
                Tree {
                    path: rebased(tree.path, depth, base),
                    children: Seq::new(
                        tree.children.len(),
                        |i: int|
                            if 0 <= i < tree.children.len() {
                                tree.children[i].rebase(depth, base)
                            } else {
                                Node::File(Seq::empty())
                            },
                    ),
                },
            ),
        }
    }

    /// Whether a search for `path` stops at this entry.
    pub open spec fn answers(self, path: Seq<Seq<char>>, dirs_only: bool) -> bool {
        self.path() == path && (dirs_only ==> self is Dir)
    }
}

impl Tree {
    /// Every entry lies directly under the directory that holds it, at every depth.
    pub open spec fn wf(self) -> bool
        decreases self,
    {
        forall|i: int|
            0 <= i < self.children.len() ==> {
                &&& is_parent(self.path, (#[trigger] self.children[i]).path())
                &&& (self.children[i] matches Node::Dir(sub) ==> sub.wf())
            }
    }

    /// Every directory, at every depth, holds no more entries than an
    /// index can count. This holds of every directory that is held in
    /// memory.
    pub open spec fn fits(self) -> bool
        decreases self,
    {
        &&& self.children.len() <= usize::MAX
        &&& forall|i: int|
            0 <= i < self.children.len() ==> ((#[trigger] self.children[i]) matches Node::Dir(sub)
                ==> sub.fits())
    }

    /// The entry that `location` addresses: one index per level, starting
    /// among this directory's own entries. `None` where the location is
    /// empty, an index is out of range, or a step would pass through a file.
    pub open spec fn resolve(self, location: Seq<usize>) -> Option<Node>
        decreases location.len(),
    {
        if location.len() == 0 || location[0] >= self.children.len() {
            None
        } else if location.len() == 1 {
            Some(self.children[location[0] as int])
        } else {
            match self.children[location[0] as int] {
                Node::Dir(sub) => sub.resolve(location.skip(1)),
                Node::File(_) => None,
            }
        }
    }

    /// The directory that `location` addresses; the empty location
    /// addresses this directory itself.
    pub open spec fn dir_at(self, location: Seq<usize>) -> Option<Tree> {
        if location.len() == 0 {
            Some(self)
        } else {
            match self.resolve(location) {
                Some(Node::Dir(sub)) => Some(sub),
                _ => None,
            }
        }
    }

    /// This directory with the entry that `location` addresses exchanged for
    /// `node`; unchanged where the location addresses nothing.
    pub open spec fn replace_at(self, location: Seq<usize>, node: Node) -> Tree
        decreases location.len(),
    {
        if location.len() == 0 || location[0] >= self.children.len() {
            self
        } else if location.len() == 1 {
            Tree { path: self.path, children: self.children.update(location[0] as int, node) }
        } else {
            match self.children[location[0] as int] {
                Node::Dir(sub) => Tree {
                    path: self.path,
                    children: self.children.update(
                        location[0] as int,
                        Node::Dir(sub.replace_at(location.skip(1), node)),
                    ),
                },
                Node::File(_) => self,
            }
        }
    }

    /// This directory without the entry that `location` addresses: the
    /// entries behind it move down by one. Unchanged where the location
    /// addresses nothing.
    pub open spec fn remove_at(self, location: Seq<usize>) -> Tree
        decreases location.len(),
    {
        if location.len() == 0 || location[0] >= self.children.len() {
            self
        } else if location.len() == 1 {
            Tree { path: self.path, children: self.children.remove(location[0] as int) }
        } else {
            match self.children[location[0] as int] {
                Node::Dir(sub) => Tree {
                    path: self.path,
                    children: self.children.update(
                        location[0] as int,
                        Node::Dir(sub.remove_at(location.skip(1))),
                    ),
                },
                Node::File(_) => self,
            }
        }
    }

    /// Whether an entry can be put in at `location`: the directory that would
    /// hold it exists and the index is at most its number of entries.
    pub open spec fn admits(self, location: Seq<usize>) -> bool
        decreases location.len(),
    {
        &&& location.len() > 0
        &&& location[0] <= self.children.len()
        &&& location.len() > 1 ==> {
            &&& location[0] < self.children.len()
            &&& self.children[location[0] as int] matches Node::Dir(sub)
            &&& sub.admits(location.skip(1))
        }
    }

    /// This directory with `node` put in at `location`, the entries from
    /// there on moving up by one. Unchanged where the directory that would
    /// hold it does not exist or the index is beyond its end.
    pub open spec fn insert_at(self, location: Seq<usize>, node: Node) -> Tree
        decreases location.len(),
    {
        if location.len() == 0 || location[0] > self.children.len() {
            self
        } else if location.len() == 1 {
            Tree { path: self.path, children: self.children.insert(location[0] as int, node) }
        } else if location[0] == self.children.len() {
            self
        } else {
            match self.children[location[0] as int] {
                Node::Dir(sub) => Tree {
                    path: self.path,
                    children: self.children.update(
                        location[0] as int,
                        Node::Dir(sub.insert_at(location.skip(1), node)),
                    ),
                },
                Node::File(_) => self,
            }
        }
    }

    /// This directory with `node` appended to the entries of the directory
    /// that `location` addresses. Unchanged where that is no directory.
    pub open spec fn push_at(self, location: Seq<usize>, node: Node) -> Tree
        decreases location.len(),
    {
        if location.len() == 0 {
            Tree { path: self.path, children: self.children.push(node) }
        } else if location[0] >= self.children.len() {
            self
        } else {
            match self.children[location[0] as int] {
                Node::Dir(sub) => Tree {
                    path: self.path,
                    children: self.children.update(
                        location[0] as int,
                        Node::Dir(sub.push_at(location.skip(1), node)),
                    ),
                },
                Node::File(_) => self,
            }
        }
    }

    /// The first location, in depth-first order and looking only at the
    /// entries from `start` on, of an entry that answers a search for `path`.
    /// The search ends at an index that no location can hold.
    pub open spec fn search_from(self, path: Seq<Seq<char>>, dirs_only: bool, start: int) -> Option<
        Seq<usize>,
    >
        decreases self, self.children.len() - start,
    {
        if start < 0 || start >= self.children.len() || start > usize::MAX {
            None
        } else if self.children[start].answers(path, dirs_only) {
            Some(seq![start as usize])
        } else {
            let below = match self.children[start] {
                Node::Dir(sub) => sub.search_from(path, dirs_only, 0),
                Node::File(_) => None,
            };
            match below {
                Some(rest) => Some(seq![start as usize] + rest),
                None => self.search_from(path, dirs_only, start + 1),
            }
        }
    }

    /// The first location, in depth-first order, of an entry with `path`.
    pub open spec fn locate(self, path: Seq<Seq<char>>) -> Option<Seq<usize>> {
        self.search_from(path, false, 0)
    }

    /// This directory after the entry with path `from` has gone to path
    /// `to`, everything under it with it. Where `to` lies in the directory
    /// that holds `from`, the entry keeps its place. Otherwise it leaves its
    /// directory and is appended to the one that holds `to`, which is looked
    /// for once the entry has left. `None` where no entry has path `from`
    /// or no directory is there to hold `to`.
    pub open spec fn relocate(self, from: Seq<Seq<char>>, to: Seq<Seq<char>>) -> Option<Tree> {
        match self.locate(from) {
            None => None,
            Some(location) => {
                let moved = self.resolve(location)->0.rebase(from.len() as int, to);
                if to.len() == 0 {
                    None
                } else if to.drop_last() == from.drop_last() {
                    Some(self.replace_at(location, moved))
                } else {
                    let rest = self.remove_at(location);
                    match rest.locate_dir(to.drop_last()) {
                        None => None,
                        Some(target) => Some(rest.push_at(target, moved)),
                    }
                }
            },
        }
    }

    /// This directory with `node` appended to the directory that holds the
    /// node's path. `None` where no directory does.
    pub open spec fn with_node(self, node: Node) -> Option<Tree> {
        if node.path().len() == 0 {
            None
        } else {
            match self.locate_dir(node.path().drop_last()) {
                None => None,
                Some(target) => Some(self.push_at(target, node)),
            }
        }
    }

    /// This directory with a new file of path `path` appended to the
    /// directory that holds that path. `None` where no directory does.
    pub open spec fn with_file(self, path: Seq<Seq<char>>) -> Option<Tree> {
        self.with_node(Node::File(path))
    }

    /// This directory with a new, empty directory of path `path` appended
    /// to the directory that holds that path. `None` where no directory does.
    pub open spec fn with_dir(self, path: Seq<Seq<char>>) -> Option<Tree> {
        self.with_node(Node::Dir(Tree { path, children: Seq::empty() }))
    }

    /// The location of the directory with `path`: the empty location for
    /// this directory itself, else the first directory with that path in
    /// depth-first order.
    pub open spec fn locate_dir(self, path: Seq<Seq<char>>) -> Option<Seq<usize>> {
        if path == self.path {
            Some(Seq::empty())
        } else {
            self.search_from(path, true, 0)
        }
    }
}

/// A file of the tree.
#[derive(Debug)]
pub struct File {
    path: TreePath,
}

/// A directory of the tree: an ordered container of entries, files and
/// directories intermixed, in the order in which they were added.
#[derive(Debug)]
pub struct Dir {
    path: TreePath,
    children: Vec<Item>,
}

/// An entry of the tree.
#[derive(Debug)]
pub enum Item {
    Dir(Dir),
    File(File),
}

impl View for File {
    type V = Seq<Seq<char>>;

    closed spec fn view(&self) -> Seq<Seq<char>> {
        self.path@
    }
}

impl View for Dir {
    type V = Tree;

    closed spec fn view(&self) -> Tree
        decreases self,
    {
        Tree {
            path: self.path@,
            children: Seq::new(
                self.children@.len(),
                |i: int|
                    if 0 <= i < self.children@.len() {
                        self.children@[i]@
                    } else {
                        Node::File(Seq::empty())
                    },
            ),
        }
    }
}

impl View for Item {
    type V = Node;

    open spec fn view(&self) -> Node
        decreases self,
    {
        match self {
            Item::Dir(dir) => Node::Dir(dir@),
            Item::File(file) => Node::File(file@),
        }
    }
}

impl File {
    /// A file with the given path.
    pub fn new(path: TreePath) -> (file: Self)
        ensures
            file@ == path@,
    {
        File { path }
    }

    /// The absolute path of the file.
    pub fn path(&self) -> (path: &TreePath)
        ensures
            path@ == self@,
    {
        &self.path
    }
}

impl Item {
    /// The absolute path of the entry.
    pub fn path(&self) -> (path: &TreePath)
        ensures
            path@ == self@.path(),
    {
        match self {
            Item::Dir(dir) => &dir.path,
            Item::File(file) => &file.path,
        }
    }

    /// Whether the entry is a directory.
    pub fn is_dir(&self) -> (b: bool)
        ensures
            b == (self@ is Dir),
    {
        match self {
            Item::Dir(_) => true,
            Item::File(_) => false,
        }
    }

    /// The directory that the entry is, if it is one.
    pub fn as_dir(&self) -> (dir: Option<&Dir>)
        ensures
            dir is Some ==> self@ == Node::Dir(dir->0@),
            dir is None ==> self@ is File,
    {
        match self {
            Item::Dir(dir) => Some(dir),
            Item::File(_) => None,
        }
    }

    /// The file that the entry is, if it is one.
    pub fn as_file(&self) -> (file: Option<&File>)
        ensures
            file is Some ==> self@ == Node::File(file->0@),
            file is None ==> self@ is Dir,
    {
        match self {
            Item::Dir(_) => None,
            Item::File(file) => Some(file),
        }
    }

    /// A copy of the entry in which the first `depth` names of its path, and
    /// of every path below it, are replaced by `base`.
    #[verifier::loop_isolation(false)]
    pub fn rebased(&self, depth: usize, base: &TreePath) -> (item: Item)
        ensures
            item@ == self@.rebase(depth as int, base@),
        decreases self,
    {
        match self {
            Item::File(file) => Item::File(File { path: file.path.rebase(depth, base) }),
            Item::Dir(dir) => {
                let path = dir.path.rebase(depth, base);
                let mut children: Vec<Item> = Vec::new();
                let mut i: usize = 0;
                while i < dir.children.len()
                    invariant
                        i <= dir.children.len(),
                        children@.len() == i,
                        forall|j: int|
                            0 <= j < i ==> children@[j]@ == dir@.children[j].rebase(
                                depth as int,
                                base@,
                            ),
                    decreases dir.children.len() - i,
                {
                    assert(dir@.children[i as int] == dir.children@[i as int]@);
                    let child = dir.children[i].rebased(depth, base);
                    children.push(child);
                    i += 1;
                }
                let rebuilt = Dir { path, children };
                assert(rebuilt@.children =~= self@.rebase(depth as int, base@)->Dir_0.children);
                Item::Dir(rebuilt)
            },
        }
    }
}

impl Dir {
    /// An empty directory with the given path.
    pub fn new(path: TreePath) -> (dir: Self)
        ensures
            dir@ == (Tree { path: path@, children: Seq::empty() }),
            dir@.wf(),
    {
        let dir = Dir { path, children: Vec::new() };
        assert(dir@.children =~= Seq::empty());
        dir
    }

    /// The absolute path of the directory.
    pub fn path(&self) -> (path: &TreePath)
        ensures
            path@ == self@.path,
    {
        &self.path
    }

    /// The number of entries directly in the directory.
    pub fn len(&self) -> (n: usize)
        ensures
            n == self@.children.len(),
    {
        self.children.len()
    }

    /// The entries directly in the directory, in order; not those below them.
    pub fn children(&self) -> (items: &[Item])
        ensures
            items@.len() == self@.children.len(),
            forall|i: int| 0 <= i < items@.len() ==> items@[i]@ == self@.children[i],
    {
        self.children.as_slice()
    }

    /// The entry at `index`, if there is one.
    pub fn child(&self, index: usize) -> (item: Option<&Item>)
        ensures
            index >= self@.children.len() ==> item is None,
            index < self@.children.len() ==> {
                &&& item is Some
                &&& item->0@ == self@.children[index as int]
            },
    {
        if index < self.children.len() {
            Some(&self.children[index])
        } else {
            None
        }
    }

    /// Whether every entry lies directly under the directory that holds
    /// it, at every depth. Every function here that changes a directory
    /// keeps this; only a write through `nested_child_mut` can break it.
    #[verifier::loop_isolation(false)]
    pub fn is_well_formed(&self) -> (b: bool)
        ensures
            b == self@.wf(),
        decreases self,
    {
        let mut i: usize = 0;
        while i < self.children.len()
            invariant
                i <= self.children.len(),
                forall|j: int|
                    0 <= j < i ==> {
                        &&& is_parent(self@.path, (#[trigger] self@.children[j]).path())
                        &&& (self@.children[j] matches Node::Dir(sub) ==> sub.wf())
                    },
            decreases self.children.len() - i,
        {
            let child = &self.children[i];
            assert(self@.children[i as int] == child@);
            if !self.path.is_parent_of(child.path()) {
                return false;
            }
            match child {
                Item::Dir(sub) => {
                    if !sub.is_well_formed() {
                        return false;
                    }
                },
                Item::File(_) => {},
            }
            i += 1;
        }
        true
    }

    /// The entry that `location` addresses, found by going down one level
    /// per index.
    pub fn nested_child(&self, location: &[usize]) -> (item: Option<&Item>)
        ensures
            self@.resolve(location@) is None ==> item is None,
            self@.resolve(location@) is Some ==> {
                &&& item is Some
                &&& item->0@ == self@.resolve(location@)->0
            },
    {
        if location.len() == 0 {
            return None;
        }
        let mut dir: &Dir = self;
        let mut depth: usize = 0;
        assert(location@.skip(0) =~= location@);
        let last: usize = location.len() - 1;
        while depth < last
            invariant
                last + 1 == location@.len(),
                depth <= last,
                self@.resolve(location@) == dir@.resolve(location@.skip(depth as int)),
            decreases location@.len() - depth,
        {
            let index = location[depth];
            let ghost rest = location@.skip(depth as int);
            assert(rest[0] == index);
            assert(rest.skip(1) =~= location@.skip(depth + 1));
            if index >= dir.children.len() {
                return None;
            }
            assert(dir@.children[index as int] == dir.children@[index as int]@);
            match &dir.children[index] {
                Item::Dir(sub) => {
                    dir = sub;
                },
                Item::File(_) => {
                    return None;
                },
            }
            depth += 1;
        }
        let index = location[depth];
        assert(location@.skip(depth as int).len() == 1);
        assert(location@.skip(depth as int)[0] == index);
        dir.child(index)
    }

    /// A directory that is held in memory holds, at every depth, no more
    /// entries than an index can count.
    pub proof fn lemma_fits(dir: Dir)
        ensures
            dir@.fits(),
        decreases dir,
    {
        assert(dir@.children.len() == dir.children.len());
        assert forall|i: int| 0 <= i < dir@.children.len() implies ((
        #[trigger] dir@.children[i]) matches Node::Dir(sub) ==> sub.fits()) by {
            assert(dir@.children[i] == dir.children@[i]@);
            match dir.children@[i] {
                Item::Dir(sub) => {
                    Self::lemma_fits(sub);
                },
                Item::File(_) => {},
            }
        }
    }

    /// A change of the entry at `index` shows in what the directory is, as
    /// a value, as the change of that entry alone.
    proof fn lemma_child_change(before: Dir, index: int)
        requires
            0 <= index < before.children@.len(),
        ensures
            before@.children[index] == before.children@[index]@,
            forall|after: Dir|
                after.path == before.path && after.children@ == before.children@.update(
                    index,
                    after.children@[index],
                ) ==> {
                    &&& #[trigger] after@ == (Tree {
                        path: before@.path,
                        children: before@.children.update(index, after.children@[index]@),
                    })
                    &&& (after.children@[index]@ == before@.children[index] ==> after@ == before@)
                },
    {
        assert forall|after: Dir|
            after.path == before.path && after.children@ == before.children@.update(
                index,
                after.children@[index],
            ) implies {
            &&& #[trigger] after@ == (Tree {
                path: before@.path,
                children: before@.children.update(index, after.children@[index]@),
            })
            &&& (after.children@[index]@ == before@.children[index] ==> after@ == before@)
        } by {
            assert(after@.children =~= before@.children.update(index, after.children@[index]@));
            if after.children@[index]@ == before@.children[index] {
                assert(after@.children =~= before@.children);
            }
        }
    }

    /// Mutable access to the entry that `location` addresses. What is
    /// written through it takes that entry's place in the tree. Whoever
    /// writes owes the tree its well-formedness again: `is_well_formed`
    /// tests it.
    pub fn nested_child_mut(&mut self, location: &[usize]) -> (item: Option<&mut Item>)
        ensures
            old(self)@.resolve(location@) is None ==> {
                &&& item is None
                &&& final(self)@ == old(self)@
            },
            old(self)@.resolve(location@) is Some ==> {
                &&& item is Some
                &&& (*item->0)@ == old(self)@.resolve(location@)->0
                &&& final(self)@ == old(self)@.replace_at(location@, (*final(item->0))@)
            },
        decreases location@.len(),
    {
        if location.len() == 0 {
            return None;
        }
        let index = location[0];
        if index >= self.children.len() {
            return None;
        }
        proof {
            Self::lemma_child_change(*self, index as int);
        }
        if location.len() == 1 {
            return Some(&mut self.children[index]);
        }
        let rest = vstd::slice::slice_subrange(location, 1, location.len());
        assert(rest@ == location@.skip(1));
        match &mut self.children[index] {
            Item::Dir(dir) => dir.nested_child_mut(rest),
            Item::File(_) => None,
        }
    }

    /// Removes the entry at `index` and hands it back; later entries move
    /// down by one.
    pub fn remove_child(&mut self, index: usize) -> (removed: Result<Item, TreeError>)
        ensures
            index >= old(self)@.children.len() ==> {
                &&& removed == Err::<Item, TreeError>(TreeError::InvalidLocation)
                &&& final(self)@ == old(self)@
            },
            index < old(self)@.children.len() ==> {
                &&& removed is Ok
                &&& removed->Ok_0@ == old(self)@.children[index as int]
                &&& final(self)@ == (Tree {
                    path: old(self)@.path,
                    children: old(self)@.children.remove(index as int),
                })
            },
            old(self)@.wf() ==> final(self)@.wf(),
    {
        if index >= self.children.len() {
            return Err(TreeError::InvalidLocation);
        }
        let item = self.children.remove(index);
        assert(self@.children =~= old(self)@.children.remove(index as int));
        Ok(item)
    }

    /// Appends a file called `name` to the directory. A name that the
    /// directory already holds is accepted: the new file comes after it.
    pub fn new_file(&mut self, name: &str) -> (done: Result<(), TreeError>)
        ensures
            done is Ok,
            final(self)@ == (Tree {
                path: old(self)@.path,
                children: old(self)@.children.push(Node::File(old(self)@.path.push(name@))),
            }),
            old(self)@.wf() ==> final(self)@.wf(),
    {
        let file = File { path: self.path.join(name) };
        self.children.push(Item::File(file));
        assert(self@.children =~= old(self)@.children.push(
            Node::File(old(self)@.path.push(name@)),
        ));
        assert(old(self)@.path.push(name@).drop_last() =~= old(self)@.path);
        Ok(())
    }

    /// Appends an empty directory called `name` to the directory. A name
    /// that the directory already holds is accepted.
    pub fn new_dir(&mut self, name: &str) -> (done: Result<(), TreeError>)
        ensures
            done is Ok,
            final(self)@ == (Tree {
                path: old(self)@.path,
                children: old(self)@.children.push(
                    Node::Dir(Tree { path: old(self)@.path.push(name@), children: Seq::empty() }),
                ),
            }),
            old(self)@.wf() ==> final(self)@.wf(),
    {
        let dir = Dir::new(self.path.join(name));
        self.children.push(Item::Dir(dir));
        assert(self@.children =~= old(self)@.children.push(
            Node::Dir(Tree { path: old(self)@.path.push(name@), children: Seq::empty() }),
        ));
        assert(old(self)@.path.push(name@).drop_last() =~= old(self)@.path);
        Ok(())
    }

    /// Removes the entry that `location` addresses and hands it back. The
    /// entries behind it in its directory move down by one.
    pub fn remove_at(&mut self, location: &[usize]) -> (removed: Result<Item, TreeError>)
        ensures
            old(self)@.resolve(location@) is None ==> {
                &&& removed == Err::<Item, TreeError>(TreeError::InvalidLocation)
                &&& final(self)@ == old(self)@
            },
            old(self)@.resolve(location@) is Some ==> {
                &&& removed is Ok
                &&& removed->Ok_0@ == old(self)@.resolve(location@)->0
                &&& final(self)@ == old(self)@.remove_at(location@)
            },
            old(self)@.wf() ==> final(self)@.wf(),
        decreases location@.len(),
    {
        proof {
            if old(self)@.wf() {
                lemma_remove_wf(old(self)@, location@);
            }
        }
        if location.len() == 0 {
            return Err(TreeError::InvalidLocation);
        }
        let index = location[0];
        if location.len() == 1 {
            return self.remove_child(index);
        }
        if index >= self.children.len() {
            return Err(TreeError::InvalidLocation);
        }
        let rest = vstd::slice::slice_subrange(location, 1, location.len());
        assert(rest@ == location@.skip(1));
        proof {
            Self::lemma_child_change(*self, index as int);
        }
        match &mut self.children[index] {
            Item::Dir(dir) => dir.remove_at(rest),
            Item::File(_) => Err(TreeError::InvalidLocation),
        }
    }

    /// Appends `item` to the entries of the directory that `location`
    /// addresses, the empty location standing for this directory itself.
    /// Where that is no directory, nothing changes and the item comes back.
    pub(crate) fn push_at(&mut self, location: &[usize], item: Item) -> (left: Option<Item>)
        ensures
            old(self)@.dir_at(location@) is Some ==> {
                &&& left is None
                &&& final(self)@ == old(self)@.push_at(location@, item@)
            },
            old(self)@.dir_at(location@) is None ==> {
                &&& left is Some
                &&& left->0@ == item@
                &&& final(self)@ == old(self)@
            },
        decreases location@.len(),
    {
        if location.len() == 0 {
            let ghost node = item@;
            self.children.push(item);
            assert(self@.children =~= old(self)@.children.push(node));
            return None;
        }
        let index = location[0];
        if index >= self.children.len() {
            return Some(item);
        }
        proof {
            if location@.len() == 1 {
                assert(location@.skip(1) =~= Seq::<usize>::empty());
            }
        }
        let rest = vstd::slice::slice_subrange(location, 1, location.len());
        assert(rest@ == location@.skip(1));
        proof {
            Self::lemma_child_change(*self, index as int);
        }
        match &mut self.children[index] {
            Item::Dir(dir) => dir.push_at(rest, item),
            Item::File(_) => Some(item),
        }
    }

    /// Puts `item` in the place of the entry that `location` addresses and
    /// hands the old entry back. Where the location addresses nothing,
    /// nothing changes and the item itself comes back.
    pub(crate) fn replace_at(&mut self, location: &[usize], item: Item) -> (old_item: Result<
        Item,
        Item,
    >)
        ensures
            old(self)@.resolve(location@) is Some ==> {
                &&& old_item is Ok
                &&& old_item->Ok_0@ == old(self)@.resolve(location@)->0
                &&& final(self)@ == old(self)@.replace_at(location@, item@)
            },
            old(self)@.resolve(location@) is None ==> {
                &&& old_item is Err
                &&& old_item->Err_0@ == item@
                &&& final(self)@ == old(self)@
            },
        decreases location@.len(),
    {
        if location.len() == 0 {
            return Err(item);
        }
        let index = location[0];
        if index >= self.children.len() {
            return Err(item);
        }
        if location.len() == 1 {
            let ghost node = item@;
            let ghost before = self@;
            assert(before.children[index as int] == self.children@[index as int]@);
            let mut item = item;
            std::mem::swap(&mut self.children[index], &mut item);
            assert(self@.children =~= before.children.update(index as int, node));
            return Ok(item);
        }
        let rest = vstd::slice::slice_subrange(location, 1, location.len());
        assert(rest@ == location@.skip(1));
        proof {
            Self::lemma_child_change(*self, index as int);
        }
        match &mut self.children[index] {
            Item::Dir(dir) => dir.replace_at(rest, item),
            Item::File(_) => Err(item),
        }
    }

    /// Puts `item` in at `location`; the entries from there on in that
    /// directory move up by one. Where the directory does not exist or the
    /// index is beyond its end, nothing changes and the item comes back.
    pub(crate) fn insert_at(&mut self, location: &[usize], item: Item) -> (left: Option<Item>)
        ensures
            old(self)@.admits(location@) ==> {
                &&& left is None
                &&& final(self)@ == old(self)@.insert_at(location@, item@)
            },
            !old(self)@.admits(location@) ==> {
                &&& left is Some
                &&& left->0@ == item@
                &&& final(self)@ == old(self)@
            },
        decreases location@.len(),
    {
        if location.len() == 0 {
            return Some(item);
        }
        let index = location[0];
        if index > self.children.len() {
            return Some(item);
        }
        if location.len() == 1 {
            let ghost node = item@;
            self.children.insert(index, item);
            assert(self@.children =~= old(self)@.children.insert(index as int, node));
            return None;
        }
        if index == self.children.len() {
            return Some(item);
        }
        let rest = vstd::slice::slice_subrange(location, 1, location.len());
        assert(rest@ == location@.skip(1));
        proof {
            Self::lemma_child_change(*self, index as int);
        }
        match &mut self.children[index] {
            Item::Dir(dir) => dir.insert_at(rest, item),
            Item::File(_) => Some(item),
        }
    }

    /// The first location, in depth-first order, of an entry with `path`,
    /// or of a directory with it where only directories are sought. A
    /// directory is entered only where its own path begins `path`: in a
    /// well-formed tree nothing is missed by that.
    #[verifier::loop_isolation(false)]
    fn search(&self, path: &TreePath, dirs_only: bool) -> (found: Option<Vec<usize>>)
        requires
            self@.wf(),
        ensures
            self@.search_from(path@, dirs_only, 0) is None ==> found is None,
            self@.search_from(path@, dirs_only, 0) is Some ==> {
                &&& found is Some
                &&& found->0@ == self@.search_from(path@, dirs_only, 0)->0
            },
        decreases self,
    {
        let mut i: usize = 0;
        while i < self.children.len()
            invariant
                i <= self.children.len(),
                self@.search_from(path@, dirs_only, 0) == self@.search_from(
                    path@,
                    dirs_only,
                    i as int,
                ),
            decreases self.children.len() - i,
        {
            let child = &self.children[i];
            assert(self@.children[i as int] == child@);
            let same = *child.path() == *path;
            if same && (!dirs_only || child.is_dir()) {
                let mut found: Vec<usize> = Vec::new();
                found.push(i);
                assert(found@ =~= seq![i]);
                return Some(found);
            }
            match child {
                Item::Dir(sub) => {
                    if sub.path.len() < path.len() && path.starts_with(&sub.path) {
                        match sub.search(path, dirs_only) {
                            Some(rest) => {
                                let mut found = rest;
                                found.insert(0, i);
                                assert(found@ =~= seq![i] + rest@);
                                return Some(found);
                            },
                            None => {},
                        }
                    } else {
                        proof {
                            lemma_search_prune(sub@, path@, dirs_only);
                        }
                    }
                },
                Item::File(_) => {},
            }
            i += 1;
        }
        None
    }

    /// The first location, in depth-first order, of an entry with `path`.
    /// Only directories whose own path begins `path` are entered.
    pub fn locate(&self, path: &TreePath) -> (found: Option<Vec<usize>>)
        requires
            self@.wf(),
        ensures
            self@.locate(path@) is None ==> found is None,
            self@.locate(path@) is Some ==> {
                &&& found is Some
                &&& found->0@ == self@.locate(path@)->0
            },
    {
        self.search(path, false)
    }

    /// The location of the directory with `path`: the empty location where
    /// it is this directory itself, else the first directory with that path
    /// in depth-first order.
    pub fn locate_dir(&self, path: &TreePath) -> (found: Option<Vec<usize>>)
        requires
            self@.wf(),
        ensures
            self@.locate_dir(path@) is None ==> found is None,
            self@.locate_dir(path@) is Some ==> {
                &&& found is Some
                &&& found->0@ == self@.locate_dir(path@)->0
            },
    {
        if self.path == *path {
            Some(Vec::new())
        } else {
            self.search(path, true)
        }
    }

    /// Appends `item` to the directory that holds the item's path. Fails,
    /// with nothing changed, where no directory of the tree does.
    pub(crate) fn add_item(&mut self, item: Item) -> (done: Result<(), TreeError>)
        requires
            old(self)@.wf(),
            item@.wf(),
        ensures
            final(self)@.wf(),
            old(self)@.with_node(item@) is None ==> {
                &&& done == Err::<(), TreeError>(TreeError::NotFound)
                &&& final(self)@ == old(self)@
            },
            old(self)@.with_node(item@) is Some ==> {
                &&& done is Ok
                &&& final(self)@ == old(self)@.with_node(item@)->0
            },
    {
        let parent = match item.path().parent() {
            None => {
                return Err(TreeError::NotFound);
            },
            Some(parent) => parent,
        };
        let target = match self.locate_dir(&parent) {
            None => {
                return Err(TreeError::NotFound);
            },
            Some(target) => target,
        };
        proof {
            lemma_locate_dir(self@, parent@);
            lemma_with_node_wf(self@, item@);
        }
        let _ = self.push_at(target.as_slice(), item);
        Ok(())
    }

    /// Appends a new file of path `path` to the directory that holds that
    /// path. Fails, with nothing changed, where no directory of the tree does.
    pub fn add_path(&mut self, path: TreePath) -> (done: Result<(), TreeError>)
        requires
            old(self)@.wf(),
        ensures
            final(self)@.wf(),
            old(self)@.with_file(path@) is None ==> {
                &&& done == Err::<(), TreeError>(TreeError::NotFound)
                &&& final(self)@ == old(self)@
            },
            old(self)@.with_file(path@) is Some ==> {
                &&& done is Ok
                &&& final(self)@ == old(self)@.with_file(path@)->0
            },
    {
        self.add_item(Item::File(File { path }))
    }

    /// Appends a new, empty directory of path `path` to the directory that
    /// holds that path. Fails, with nothing changed, where no directory of
    /// the tree does.
    pub fn add_dir_path(&mut self, path: TreePath) -> (done: Result<(), TreeError>)
        requires
            old(self)@.wf(),
        ensures
            final(self)@.wf(),
            old(self)@.with_dir(path@) is None ==> {
                &&& done == Err::<(), TreeError>(TreeError::NotFound)
                &&& final(self)@ == old(self)@
            },
            old(self)@.with_dir(path@) is Some ==> {
                &&& done is Ok
                &&& final(self)@ == old(self)@.with_dir(path@)->0
            },
    {
        self.add_item(Item::Dir(Dir::new(path)))
    }

    /// Removes the first entry, in depth-first order, that has path `path`,
    /// and hands it back. Fails, with nothing changed, where none has.
    pub fn remove_path(&mut self, path: &TreePath) -> (removed: Result<Item, TreeError>)
        requires
            old(self)@.wf(),
        ensures
            final(self)@.wf(),
            old(self)@.locate(path@) is None ==> {
                &&& removed == Err::<Item, TreeError>(TreeError::NotFound)
                &&& final(self)@ == old(self)@
            },
            old(self)@.locate(path@) is Some ==> {
                &&& removed is Ok
                &&& removed->Ok_0@ == old(self)@.resolve(old(self)@.locate(path@)->0)->0
                &&& final(self)@ == old(self)@.remove_at(old(self)@.locate(path@)->0)
            },
    {
        let location = match self.locate(path) {
            None => {
                return Err(TreeError::NotFound);
            },
            Some(location) => location,
        };
        proof {
            lemma_locate(self@, path@);
            lemma_remove_wf(self@, location@);
        }
        self.remove_at(location.as_slice())
    }

    /// Takes the first entry with path `from` to path `to`, with everything
    /// under it. Where `to` lies in the same directory the entry keeps its
    /// place; otherwise it is appended to the directory that holds `to`.
    /// Fails, with nothing changed, where no entry has path `from` or no
    /// directory is left to hold `to`.
    pub fn relocate(&mut self, from: &TreePath, to: &TreePath) -> (done: Result<(), TreeError>)
        requires
            old(self)@.wf(),
        ensures
            final(self)@.wf(),
            old(self)@.relocate(from@, to@) is None ==> {
                &&& done == Err::<(), TreeError>(TreeError::NotFound)
                &&& final(self)@ == old(self)@
            },
            old(self)@.relocate(from@, to@) is Some ==> {
                &&& done is Ok
                &&& final(self)@ == old(self)@.relocate(from@, to@)->0
            },
    {
        let location = match self.locate(from) {
            None => {
                return Err(TreeError::NotFound);
            },
            Some(location) => location,
        };
        let into = match to.parent() {
            None => {
                return Err(TreeError::NotFound);
            },
            Some(into) => into,
        };
        let ghost before = self@;
        proof {
            lemma_locate(before, from@);
            lemma_resolve_path(before, location@);
            if before.relocate(from@, to@) is Some {
                lemma_relocate_wf(before, from@, to@);
            }
        }
        let same_dir = match from.parent() {
            None => false,
            Some(out_of) => out_of == into,
        };
        if same_dir {
            let moved = match self.nested_child(location.as_slice()) {
                None => {
                    return Err(TreeError::NotFound);
                },
                Some(item) => item.rebased(from.len(), to),
            };
            let _ = self.replace_at(location.as_slice(), moved);
            Ok(())
        } else {
            let removed = match self.remove_at(location.as_slice()) {
                Err(_) => {
                    return Err(TreeError::NotFound);
                },
                Ok(removed) => removed,
            };
            proof {
                lemma_remove_wf(before, location@);
                lemma_insert_restores(before, location@);
            }
            match self.locate_dir(&into) {
                None => {
                    let _ = self.insert_at(location.as_slice(), removed);
                    Err(TreeError::NotFound)
                },
                Some(target) => {
                    proof {
                        lemma_locate_dir(self@, into@);
                    }
                    let moved = removed.rebased(from.len(), to);
                    let _ = self.push_at(target.as_slice(), moved);
                    Ok(())
                },
            }
        }
    }
}

} // verus!
