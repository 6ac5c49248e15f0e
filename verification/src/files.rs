use vstd::prelude::*;
use tui_tree_widget::TreeItem;
use crate::dir::{Dir, File, Item, Node, Tree};
use crate::dir_lemmas::{lemma_push_in_dir, lemma_push_wf, lemma_remove_wf, lemma_resolve_path};
use crate::error::TreeError;
use crate::path::{is_parent, last_name, last_of_path, TreePath};
use crate::projection::{
    build_filetree, build_filtered, find_origin, labels_of, origin, paths_of, shown, Label,
};
use crate::projection_lemmas::lemma_origin_label;

verus! {

/// A root directory together with the label tree that is drawn for it.
/// The whole label tree is rebuilt after every change of the directory, so
/// it is never seen stale; a filter that was set is dropped by that.
#[derive(Debug)]
pub struct Files {
    items: Vec<TreeItem<'static>>,
    dir: Dir,
    filter: Option<Vec<TreePath>>,
}

/// The first file among `children` whose final name is `name`, by index;
/// the number of children where there is none.
pub open spec fn first_file_named(children: Seq<Node>, name: Seq<char>, from: int) -> int
    decreases children.len() - from,
{
    if from < 0 || from >= children.len() {
        children.len() as int
    } else if children[from] is File && last_name(children[from].path()) == name {
        from
    } else {
        first_file_named(children, name, from + 1)
    }
}

impl Files {
    /// The root directory, as a value.
    pub closed spec fn tree(&self) -> Tree {
        self.dir@
    }

    /// The label tree that is drawn, as a value.
    pub closed spec fn labels(&self) -> Seq<Label> {
        labels_of(self.items@)
    }

    /// The targets of the filter that restricts the label tree, if one is set.
    pub closed spec fn filter(&self) -> Option<Seq<Seq<Seq<char>>>> {
        match self.filter {
            None => None,
            Some(targets) => Some(paths_of(targets@)),
        }
    }

    /// The location in the directory of the entry whose label `location`
    /// addresses in the label tree that is drawn; `None` where it
    /// addresses no label. Without a filter the two locations are one.
    pub open spec fn origin(&self, location: Seq<usize>) -> Option<Seq<usize>> {
        origin(self.tree(), self.filter(), location)
    }

    /// The entry whose label `location` addresses in the label tree that
    /// is drawn.
    pub open spec fn entry_at(&self, location: Seq<usize>) -> Option<Node> {
        match self.origin(location) {
            Some(place) => self.tree().resolve(place),
            None => None,
        }
    }

    /// The directory is well formed, and the label tree is the one that
    /// belongs to the directory as it is now.
    pub open spec fn wf(&self) -> bool {
        &&& self.tree().wf()
        &&& self.labels() == shown(self.tree(), self.filter())
    }

    /// The root directory with its whole label tree.
    pub fn new(dir: Dir) -> (files: Self)
        requires
            dir@.wf(),
        ensures
            files.wf(),
            files.tree() == dir@,
            files.filter() is None,
    {
        let items = build_filetree(&dir);
        Files { items, dir, filter: None }
    }

    /// The root directory.
    pub fn dir(&self) -> (dir: &Dir)
        ensures
            dir@ == self.tree(),
    {
        &self.dir
    }

    /// The label tree that is drawn: one display item per shown entry.
    pub fn items(&self) -> (items: &[TreeItem<'static>])
        ensures
            labels_of(items@) == self.labels(),
    {
        self.items.as_slice()
    }

    /// The label tree that is drawn, as the list that holds it.
    pub(crate) fn items_vec(&self) -> (items: &Vec<TreeItem<'static>>)
        ensures
            labels_of(items@) == self.labels(),
    {
        &self.items
    }

    /// The location in the directory of the entry whose label `location`
    /// addresses in the label tree that is drawn. Without a filter it is
    /// `location` itself, where that addresses an entry.
    pub fn dir_location(&self, location: &[usize]) -> (found: Option<Vec<usize>>)
        ensures
            self.origin(location@) is None ==> found is None,
            self.origin(location@) is Some ==> {
                &&& found is Some
                &&& found->0@ == self.origin(location@)->0
                &&& self.tree().resolve(found->0@) is Some
            },
    {
        match &self.filter {
            None => {
                if self.dir.nested_child(location).is_some() {
                    Some(vstd::slice::slice_to_vec(location))
                } else {
                    None
                }
            },
            Some(targets) => {
                let found = find_origin(&self.dir, targets, location);
                proof {
                    if found is Some {
                        lemma_origin_label(self.tree(), paths_of(targets@), location@);
                    }
                }
                found
            },
        }
    }

    /// Whether a filter restricts the label tree.
    pub fn is_filtered(&self) -> (b: bool)
        ensures
            b == (self.filter() is Some),
    {
        self.filter.is_some()
    }

    /// Rebuilds the whole label tree from the directory; a filter is dropped.
    fn update(&mut self)
        requires
            old(self).tree().wf(),
        ensures
            final(self).wf(),
            final(self).tree() == old(self).tree(),
            final(self).filter() is None,
    {
        self.items = build_filetree(&self.dir);
        self.filter = None;
    }

    /// Removes the entry that `location` addresses and hands it back. On
    /// success the whole label tree is rebuilt. On failure nothing changes.
    pub fn remove_file(&mut self, location: &[usize]) -> (removed: Result<Item, TreeError>)
        requires
            old(self).wf(),
        ensures
            final(self).wf(),
            old(self).tree().resolve(location@) is None ==> {
                &&& removed == Err::<Item, TreeError>(TreeError::InvalidLocation)
                &&& final(self).tree() == old(self).tree()
                &&& final(self).filter() == old(self).filter()
            },
            old(self).tree().resolve(location@) is Some ==> {
                &&& removed is Ok
                &&& removed->Ok_0@ == old(self).tree().resolve(location@)->0
                &&& final(self).tree() == old(self).tree().remove_at(location@)
                &&& final(self).filter() is None
            },
    {
        let removed = self.dir.remove_at(location);
        if removed.is_ok() {
            proof {
                lemma_remove_wf(old(self).tree(), location@);
            }
            self.update();
        }
        removed
    }

    /// Appends a file called `name` to the directory that `location`
    /// addresses, rebuilds the whole label tree, and hands back the first
    /// file of that directory whose final name is `name`. A name that the
    /// directory already holds is accepted, so the file handed back is not
    /// always the new one. Fails, with nothing changed, where `location`
    /// does not address a directory; the empty location addresses none.
    #[verifier::loop_isolation(false)]
    pub fn add_file(&mut self, location: &[usize], name: &str) -> (added: Result<&File, TreeError>)
        requires
            old(self).wf(),
        ensures
            final(self).wf(),
            !(old(self).tree().resolve(location@) matches Some(Node::Dir(_))) ==> {
                &&& added == Err::<&File, TreeError>(TreeError::InvalidLocation)
                &&& final(self).tree() == old(self).tree()
                &&& final(self).filter() == old(self).filter()
            },
            old(self).tree().resolve(location@) matches Some(Node::Dir(sub)) ==> {
                &&& added is Ok
                &&& final(self).tree() == old(self).tree().push_at(
                    location@,
                    Node::File(sub.path.push(name@)),
                )
                &&& final(self).filter() is None
                &&& final(self).tree().resolve(location@) matches Some(Node::Dir(grown))
                &&& grown.children == sub.children.push(Node::File(sub.path.push(name@)))
                &&& first_file_named(grown.children, name@, 0) < grown.children.len()
                &&& Node::File(added->Ok_0@) == grown.children[first_file_named(
                    grown.children,
                    name@,
                    0,
                )]
                &&& added->Ok_0@ == sub.path.push(name@)
            },
    {
        let path = match self.dir.nested_child(location) {
            None => {
                return Err(TreeError::InvalidLocation);
            },
            Some(item) => match item.as_dir() {
                None => {
                    return Err(TreeError::InvalidLocation);
                },
                Some(dir) => dir.path().join(name),
            },
        };
        let ghost sub = old(self).tree().resolve(location@)->0->Dir_0;
        let ghost node = Node::File(sub.path.push(name@));
        proof {
            assert(sub.path.push(name@).drop_last() =~= sub.path);
            lemma_push_wf(old(self).tree(), location@, node);
            lemma_push_in_dir(old(self).tree(), location@, node);
            lemma_resolve_path(old(self).tree().push_at(location@, node), location@);
        }
        let _ = self.dir.push_at(location, Item::File(File::new(path)));
        self.update();
        let dir = match self.dir.nested_child(location) {
            Some(item) => match item.as_dir() {
                Some(dir) => dir,
                None => vstd::pervasive::unreached(),
            },
            None => vstd::pervasive::unreached(),
        };
        let children = dir.children();
        let wanted = name.to_owned();
        let ghost grown = dir@;
        let mut i: usize = 0;
        while i < children.len()
            invariant
                i <= children@.len(),
                children@.len() == grown.children.len(),
                forall|j: int| 0 <= j < children@.len() ==> children@[j]@ == grown.children[j],
                grown.wf(),
                grown.children == sub.children.push(node),
                node == Node::File(sub.path.push(name@)),
                grown.path == sub.path,
                first_file_named(grown.children, name@, 0) == first_file_named(
                    grown.children,
                    name@,
                    i as int,
                ),
            decreases children@.len() - i,
        {
            let child = &children[i];
            match child.as_file() {
                Some(file) => {
                    if last_of_path(file.path()) == wanted {
                        let found = file;
                        proof {
                            let here = grown.children[i as int];
                            assert(here == Node::File(file@));
                            assert(is_parent(grown.path, here.path()));
                            assert(file@.drop_last() == sub.path);
                            assert(file@.last() == name@);
                            assert(found@ =~= sub.path.push(name@));
                        }
                        return Ok(found);
                    }
                },
                None => {},
            }
            i += 1;
        }
        proof {
            let n = sub.children.len() as int;
            assert(grown.children[n] == node);
            assert(last_name(node.path()) == name@);
            lemma_first_file_named_bound(grown.children, name@, 0, n);
        }
        vstd::pervasive::unreached()
    }

    /// Mirrors a file that was created on disk: a new file of path `path`
    /// is appended to the directory that holds that path, and the whole
    /// label tree is rebuilt. Fails, with nothing changed, where the tree
    /// has no such directory.
    pub fn reconcile_add(&mut self, path: TreePath) -> (done: Result<(), TreeError>)
        requires
            old(self).wf(),
        ensures
            final(self).wf(),
            old(self).tree().with_file(path@) is None ==> {
                &&& done == Err::<(), TreeError>(TreeError::NotFound)
                &&& final(self).tree() == old(self).tree()
                &&& final(self).filter() == old(self).filter()
            },
            old(self).tree().with_file(path@) is Some ==> {
                &&& done is Ok
                &&& final(self).tree() == old(self).tree().with_file(path@)->0
                &&& final(self).filter() is None
            },
    {
        let done = self.dir.add_path(path);
        if done.is_ok() {
            self.update();
        }
        done
    }

    /// Mirrors a directory that was created on disk: a new, empty
    /// directory of path `path` is appended to the directory that holds
    /// that path, and the whole label tree is rebuilt. Fails, with nothing
    /// changed, where the tree has no such directory.
    pub fn reconcile_add_dir(&mut self, path: TreePath) -> (done: Result<(), TreeError>)
        requires
            old(self).wf(),
        ensures
            final(self).wf(),
            old(self).tree().with_dir(path@) is None ==> {
                &&& done == Err::<(), TreeError>(TreeError::NotFound)
                &&& final(self).tree() == old(self).tree()
                &&& final(self).filter() == old(self).filter()
            },
            old(self).tree().with_dir(path@) is Some ==> {
                &&& done is Ok
                &&& final(self).tree() == old(self).tree().with_dir(path@)->0
                &&& final(self).filter() is None
            },
    {
        let done = self.dir.add_dir_path(path);
        if done.is_ok() {
            self.update();
        }
        done
    }

    /// Mirrors a deletion on disk: the first entry with path `path` leaves
    /// the tree, with everything under it, and is handed back; the whole
    /// label tree is rebuilt. Fails, with nothing changed, where no entry
    /// has that path.
    pub fn reconcile_delete(&mut self, path: &TreePath) -> (removed: Result<Item, TreeError>)
        requires
            old(self).wf(),
        ensures
            final(self).wf(),
            old(self).tree().locate(path@) is None ==> {
                &&& removed == Err::<Item, TreeError>(TreeError::NotFound)
                &&& final(self).tree() == old(self).tree()
                &&& final(self).filter() == old(self).filter()
            },
            old(self).tree().locate(path@) is Some ==> {
                &&& removed is Ok
                &&& removed->Ok_0@ == old(self).tree().resolve(old(self).tree().locate(path@)->0)->0
                &&& final(self).tree() == old(self).tree().remove_at(
                    old(self).tree().locate(path@)->0,
                )
                &&& final(self).filter() is None
            },
    {
        let removed = self.dir.remove_path(path);
        if removed.is_ok() {
            self.update();
        }
        removed
    }

    /// Mirrors a rename on disk: the first entry with path `old_path` gets
    /// path `new_path`, and every path under it the new start, in place.
    /// The whole label tree is rebuilt. A new path in another directory is
    /// a move, and is treated as one. Fails, with nothing changed, where
    /// no entry has the old path or no directory holds the new one.
    pub fn reconcile_rename(&mut self, old_path: &TreePath, new_path: &TreePath) -> (done: Result<
        (),
        TreeError,
    >)
        requires
            old(self).wf(),
        ensures
            final(self).wf(),
            old(self).tree().relocate(old_path@, new_path@) is None ==> {
                &&& done == Err::<(), TreeError>(TreeError::NotFound)
                &&& final(self).tree() == old(self).tree()
                &&& final(self).filter() == old(self).filter()
            },
            old(self).tree().relocate(old_path@, new_path@) is Some ==> {
                &&& done is Ok
                &&& final(self).tree() == old(self).tree().relocate(old_path@, new_path@)->0
                &&& final(self).filter() is None
            },
    {
        let done = self.dir.relocate(old_path, new_path);
        if done.is_ok() {
            self.update();
        }
        done
    }

    /// Mirrors a move on disk: the first entry with path `from` leaves its
    /// directory and is appended, under path `to` and with everything under
    /// it, to the directory that holds `to`. The whole label tree is
    /// rebuilt. A move within one directory is a rename, and keeps the
    /// entry's place. Fails, with nothing changed, where no entry has path
    /// `from` or no directory is left to hold `to`.
    pub fn reconcile_move(&mut self, from: &TreePath, to: &TreePath) -> (done: Result<
        (),
        TreeError,
    >)
        requires
            old(self).wf(),
        ensures
            final(self).wf(),
            old(self).tree().relocate(from@, to@) is None ==> {
                &&& done == Err::<(), TreeError>(TreeError::NotFound)
                &&& final(self).tree() == old(self).tree()
                &&& final(self).filter() == old(self).filter()
            },
            old(self).tree().relocate(from@, to@) is Some ==> {
                &&& done is Ok
                &&& final(self).tree() == old(self).tree().relocate(from@, to@)->0
                &&& final(self).filter() is None
            },
    {
        let done = self.dir.relocate(from, to);
        if done.is_ok() {
            self.update();
        }
        done
    }

    /// Restricts the label tree to the chains above `targets`: an entry is
    /// shown only where its path is a target or the path of a directory
    /// above one. The directory itself is not touched.
    pub fn filter_include(&mut self, targets: Vec<TreePath>)
        requires
            old(self).wf(),
        ensures
            final(self).wf(),
            final(self).tree() == old(self).tree(),
            final(self).filter() == Some(paths_of(targets@)),
    {
        self.items = build_filtered(&self.dir, &targets);
        self.filter = Some(targets);
    }

    /// Drops the filter: the whole label tree is shown again.
    pub fn clear_filter(&mut self)
        requires
            old(self).wf(),
        ensures
            final(self).wf(),
            final(self).tree() == old(self).tree(),
            final(self).filter() is None,
    {
        self.update();
    }
}

/// The directory of a `Files` holds, at every depth, no more entries than
/// an index can count.
pub proof fn lemma_tree_fits(files: Files)
    ensures
        files.tree().fits(),
{
    Dir::lemma_fits(files.dir);
}

/// A file with the name sought at index `at` bounds where the first such
/// file stands.
proof fn lemma_first_file_named_bound(children: Seq<Node>, name: Seq<char>, from: int, at: int)
    requires
        0 <= from <= at < children.len(),
        children[at] is File,
        last_name(children[at].path()) == name,
    ensures
        from <= first_file_named(children, name, from) <= at,
    decreases at - from,
{
    if !(children[from] is File && last_name(children[from].path()) == name) {
        lemma_first_file_named_bound(children, name, from + 1, at);
    }
}

} // verus!
