use vstd::prelude::*;
use crate::dir::Node;
use crate::error::TreeError;
use crate::filetree::{after_removal, ancestors, Filetree};
use crate::path::TreePath;
use crate::projection::paths_of;
use crate::state::{stepped, toggled};

verus! {

/// A request to the tree. The requests that mirror a change on disk are
/// made only once that change has succeeded: the tree itself touches no disk.
#[derive(Debug)]
pub enum Command {
    /// The entry with this path was deleted.
    Delete(TreePath),
    /// A file with this path was created.
    Add(TreePath),
    /// A directory with this path was created.
    AddDir(TreePath),
    /// The entry with the first path now has the second.
    Rename(TreePath, TreePath),
    /// The entry with the first path was moved to the second.
    Move(TreePath, TreePath),
    /// Show only the chains above these paths.
    FilterFor(Vec<TreePath>),
    /// Reveal and select the entry with this path.
    GotoFile(TreePath),
    /// Remove the selected entry.
    RemoveSelected,
    /// Append a file with this name to the directory at this location.
    AddFile(Vec<usize>, String),
}

/// A key that moves the selection or folds a directory.
#[derive(Debug, Clone, Copy, PartialEq, Eq, Structural)]
pub enum Key {
    First,
    Last,
    Up,
    Down,
    Toggle,
}

impl Filetree {
    /// The selection that `key` leads to.
    pub open spec fn selected_after(&self, key: Key) -> Seq<usize> {
        match key {
            Key::First => seq![0usize],
            Key::Last => if self.visible().len() > 0 {
                self.visible().last()
            } else {
                Seq::empty()
            },
            Key::Up => if self.files.labels().len() > 0 {
                stepped(self.visible(), self.selected(), false)
            } else {
                self.selected()
            },
            Key::Down => if self.files.labels().len() > 0 {
                stepped(self.visible(), self.selected(), true)
            } else {
                self.selected()
            },
            Key::Toggle => self.selected(),
        }
    }

    /// The expanded set that `key` leads to.
    pub open spec fn opened_after(&self, key: Key) -> Set<Seq<usize>> {
        if key == Key::Toggle && self.selected_entry() matches Some(Node::Dir(_)) {
            toggled(self.opened(), self.selected())
        } else {
            self.opened()
        }
    }

    /// Takes a key where the tree has the focus, and says whether it did.
    /// Without the focus nothing changes.
    pub fn handle_key(&mut self, key: Key) -> (consumed: bool)
        ensures
            consumed == old(self).focused,
            final(self).files == old(self).files,
            final(self).focused == old(self).focused,
            old(self).focused ==> final(self).selected() == old(self).selected_after(key)
                && final(self).opened() == old(self).opened_after(key),
            !old(self).focused ==> final(self).state == old(self).state,
    {
        if !self.focused {
            return false;
        }
        match key {
            Key::First => self.first(),
            Key::Last => self.last(),
            Key::Up => self.up(),
            Key::Down => self.down(),
            Key::Toggle => self.toggle(),
        }
        true
    }

    /// Carries out one request. On failure nothing changes.
    pub fn apply(&mut self, command: Command) -> (done: Result<(), TreeError>)
        requires
            old(self).wf(),
        ensures
            final(self).wf(),
            final(self).focused == old(self).focused,
            done is Err ==> {
                &&& final(self).files.tree() == old(self).files.tree()
                &&& final(self).files.filter() == old(self).files.filter()
                &&& final(self).state == old(self).state
            },
            match command {
                Command::Delete(path) => {
                    &&& final(self).state == old(self).state
                    &&& match old(self).files.tree().locate(path@) {
                        None => done == Err::<(), TreeError>(TreeError::NotFound),
                        Some(location) => {
                            &&& done is Ok
                            &&& final(self).files.tree() == old(self).files.tree().remove_at(
                                location,
                            )
                            &&& final(self).files.filter() is None
                        },
                    }
                },
                Command::Add(path) => {
                    &&& final(self).state == old(self).state
                    &&& match old(self).files.tree().with_file(path@) {
                        None => done == Err::<(), TreeError>(TreeError::NotFound),
                        Some(tree) => {
                            &&& done is Ok
                            &&& final(self).files.tree() == tree
                            &&& final(self).files.filter() is None
                        },
                    }
                },
                Command::AddDir(path) => {
                    &&& final(self).state == old(self).state
                    &&& match old(self).files.tree().with_dir(path@) {
                        None => done == Err::<(), TreeError>(TreeError::NotFound),
                        Some(tree) => {
                            &&& done is Ok
                            &&& final(self).files.tree() == tree
                            &&& final(self).files.filter() is None
                        },
                    }
                },
                Command::Rename(from, to) | Command::Move(from, to) => {
                    &&& final(self).state == old(self).state
                    &&& match old(self).files.tree().relocate(from@, to@) {
                        None => done == Err::<(), TreeError>(TreeError::NotFound),
                        Some(tree) => {
                            &&& done is Ok
                            &&& final(self).files.tree() == tree
                            &&& final(self).files.filter() is None
                        },
                    }
                },
                Command::FilterFor(targets) => {
                    &&& done is Ok
                    &&& final(self).state == old(self).state
                    &&& final(self).files.tree() == old(self).files.tree()
                    &&& final(self).files.filter() == Some(paths_of(targets@))
                },
                Command::GotoFile(path) => {
                    &&& final(self).files.tree() == old(self).files.tree()
                    &&& match old(self).files.tree().locate(path@) {
                        None => done == Err::<(), TreeError>(TreeError::NotFound),
                        Some(location) => {
                            &&& done is Ok
                            &&& final(self).files.filter() is None
                            &&& final(self).selected() == location
                            &&& final(self).opened() == old(self).opened().union(
                                ancestors(location),
                            )
                            &&& final(self).selected_entry() is Some
                            &&& final(self).selected_entry()->0.path() == path@
                        },
                    }
                },
                Command::RemoveSelected => {
                    match old(self).files.origin(old(self).selected()) {
                        None => done == Err::<(), TreeError>(TreeError::InvalidLocation),
                        Some(place) => {
                            &&& done is Ok
                            &&& final(self).files.tree() == old(self).files.tree().remove_at(place)
                            &&& final(self).files.filter() is None
                            &&& final(self).selected() == after_removal(
                                place,
                                final(self).files.tree().children.len(),
                            )
                            &&& final(self).opened() == old(self).opened().remove(place).remove(
                                place.drop_last(),
                            ).union(ancestors(final(self).selected()))
                            &&& final(self).files.tree().children.len() > 0 ==> {
                                &&& final(self).files.tree().resolve(final(self).selected()) is Some
                                &&& final(self).visible().contains(final(self).selected())
                            }
                        },
                    }
                },
                Command::AddFile(location, name) => {
                    &&& final(self).state == old(self).state
                    &&& match old(self).files.tree().resolve(location@) {
                        Some(Node::Dir(sub)) => {
                            &&& done is Ok
                            &&& final(self).files.tree() == old(self).files.tree().push_at(
                                location@,
                                Node::File(sub.path.push(name@)),
                            )
                            &&& final(self).files.filter() is None
                        },
                        _ => done == Err::<(), TreeError>(TreeError::InvalidLocation),
                    }
                },
            },
    {
        match command {
            Command::Delete(path) => match self.files.reconcile_delete(&path) {
                Ok(_) => Ok(()),
                Err(e) => Err(e),
            },
            Command::Add(path) => self.files.reconcile_add(path),
            Command::AddDir(path) => self.files.reconcile_add_dir(path),
            Command::Rename(from, to) => self.files.reconcile_rename(&from, &to),
            Command::Move(from, to) => self.files.reconcile_move(&from, &to),
            Command::FilterFor(targets) => {
                self.files.filter_include(targets);
                Ok(())
            },
            Command::GotoFile(path) => self.open_path(&path),
            Command::RemoveSelected => match self.remove_selected() {
                Ok(_) => Ok(()),
                Err(e) => Err(e),
            },
            Command::AddFile(location, name) => self.add_file(location.as_slice(), name.as_str()),
        }
    }
}

} // verus!
