use vstd::prelude::*;
use tui_tree_widget::TreeState;
use crate::dir::{Dir, File, Item, Node, Tree};
use crate::dir_lemmas::lemma_locate;
use crate::theorems::{theorem_removal_selects_live, theorem_revealed_is_visible};
use crate::error::TreeError;
use crate::files::Files;
use crate::path::TreePath;
use crate::state::{
    state_close, state_get_selected, state_key_down, state_key_up, state_new, state_open,
    state_select, state_select_first, state_select_last, state_opened, state_selected,
    state_toggle_selected, stepped, toggled, visible,
};

verus! {

/// One entry of a directory listing, as a scan of the disk reports it.
#[derive(Debug)]
pub struct Entry {
    pub path: TreePath,
    pub is_dir: bool,
}

/// The entry that a listing line stands for: a file, or a directory that
/// holds nothing yet.
pub open spec fn fresh_node(path: Seq<Seq<char>>, is_dir: bool) -> Node {
    if is_dir {
        Node::Dir(Tree { path, children: Seq::empty() })
    } else {
        Node::File(path)
    }
}

/// The directory that a listing builds: starting from the empty directory
/// at `root`, each line in turn is appended to the directory that holds
/// its path. `None` where, for some line, no such directory is there yet.
pub open spec fn built(root: Seq<Seq<char>>, entries: Seq<Entry>) -> Option<Tree>
    decreases entries.len(),
{
    if entries.len() == 0 {
        Some(Tree { path: root, children: Seq::empty() })
    } else {
        match built(root, entries.drop_last()) {
            None => None,
            Some(tree) => tree.with_node(fresh_node(entries.last().path@, entries.last().is_dir)),
        }
    }
}

/// The locations above `location`: its proper starts, the empty one left out.
pub open spec fn ancestors(location: Seq<usize>) -> Set<Seq<usize>> {
    Set::new(
        |above: Seq<usize>| 0 < above.len() < location.len() && above.is_prefix_of(location),
    )
}

/// The locations above `location` that are at most `depth` long.
spec fn ancestors_upto(location: Seq<usize>, depth: int) -> Set<Seq<usize>> {
    Set::new(
        |above: Seq<usize>|
            0 < above.len() <= depth && above.len() < location.len() && above.is_prefix_of(
                location,
            ),
    )
}

/// Where the selection goes once the entry at `location` has been removed
/// and `left` entries remain directly under the root: to the directory
/// that held the entry where that is not the root; else it stays on the
/// index, which the next entry has moved into; else, where the entry was
/// the last of several, it goes to the one before.
pub open spec fn after_removal(location: Seq<usize>, left: nat) -> Seq<usize> {
    if location.len() > 1 {
        location.drop_last()
    } else if location.len() == 1 && location[0] >= left && location[0] > 0 {
        seq![(location[0] - 1) as usize]
    } else {
        location
    }
}

/// The navigable tree: a root directory with its label tree, and the
/// navigation state that moves a selection through what is visible of it.
///
/// The selection and the expanded set are locations of the label tree
/// that is drawn. Without a filter these are the locations of the
/// directory too. Under a filter the selected entry is found through
/// `Files::origin`, which takes a location of the label tree to the
/// location of its entry in the directory.
#[derive(Debug)]
pub struct Filetree {
    pub state: TreeState,
    pub files: Files,
    pub focused: bool,
}

impl Filetree {
    /// The selected location.
    pub open spec fn selected(&self) -> Seq<usize> {
        state_selected(self.state)
    }

    /// The set of expanded locations.
    pub open spec fn opened(&self) -> Set<Seq<usize>> {
        state_opened(self.state)
    }

    /// The visible locations in depth-first order: those of the label tree
    /// for which every location above is expanded.
    pub open spec fn visible(&self) -> Seq<Seq<usize>> {
        visible(self.opened(), self.files.labels())
    }

    /// The entry whose label is selected in the label tree that is drawn;
    /// `None` where the selection addresses no label.
    pub open spec fn selected_entry(&self) -> Option<Node> {
        self.files.entry_at(self.selected())
    }

    /// The directory is well formed and its label tree is current.
    pub open spec fn wf(&self) -> bool {
        self.files.wf()
    }

    /// Builds the tree of directory `root` from a listing of what is under
    /// it, each directory listed before what it holds. The first top-level
    /// entry is selected, nothing is expanded, and the tree has the focus.
    /// Fails where a line's directory is not there.
    pub fn from_dir(root: TreePath, entries: &Vec<Entry>) -> (tree: Result<Filetree, TreeError>)
        ensures
            built(root@, entries@) is None ==> tree == Err::<Filetree, TreeError>(
                TreeError::NotFound,
            ),
            built(root@, entries@) is Some ==> {
                &&& tree is Ok
                &&& tree->Ok_0.wf()
                &&& tree->Ok_0.files.tree() == built(root@, entries@)->0
                &&& tree->Ok_0.files.filter() is None
                &&& tree->Ok_0.selected() == seq![0usize]
                &&& tree->Ok_0.opened() == Set::<Seq<usize>>::empty()
                &&& tree->Ok_0.focused
            },
    {
        let mut dir = Dir::new(root);
        let mut i: usize = 0;
        assert(entries@.take(0) =~= Seq::<Entry>::empty());
        while i < entries.len()
            invariant
                i <= entries@.len(),
                dir@.wf(),
                built(root@, entries@.take(i as int)) == Some(dir@),
            decreases entries@.len() - i,
        {
            let entry = &entries[i];
            let item = if entry.is_dir {
                Item::Dir(Dir::new(entry.path.clone()))
            } else {
                Item::File(File::new(entry.path.clone()))
            };
            proof {
                assert(entries@.take(i + 1).drop_last() =~= entries@.take(i as int));
                assert(entries@.take(i + 1).last() == entries@[i as int]);
                assert(item@ == fresh_node(entry.path@, entry.is_dir));
                lemma_built_prefix(root@, entries@, i + 1);
            }
            match dir.add_item(item) {
                Err(_) => {
                    proof {
                        lemma_built_fails(root@, entries@, i + 1);
                    }
                    return Err(TreeError::NotFound);
                },
                Ok(()) => {},
            }
            i += 1;
        }
        assert(entries@.take(i as int) =~= entries@);
        let files = Files::new(dir);
        let mut state = state_new();
        state_select_first(&mut state);
        Ok(Filetree { state, files, focused: true })
    }

    /// Selects the first top-level location.
    pub fn first(&mut self)
        ensures
            final(self).selected() == seq![0usize],
            final(self).opened() == old(self).opened(),
            final(self).files == old(self).files,
            final(self).focused == old(self).focused,
    {
        state_select_first(&mut self.state);
    }

    /// Selects the last visible location; the empty location where
    /// nothing is visible.
    pub fn last(&mut self)
        ensures
            final(self).selected() == if old(self).visible().len() > 0 {
                old(self).visible().last()
            } else {
                Seq::<usize>::empty()
            },
            final(self).opened() == old(self).opened(),
            final(self).files == old(self).files,
            final(self).focused == old(self).focused,
    {
        let items = self.files.items_vec();
        state_select_last(&mut self.state, items);
    }

    /// Flips the expansion of the selected location where the selected
    /// entry is a directory; does nothing where it is a file or nothing.
    pub fn toggle(&mut self)
        ensures
            final(self).opened() == match old(self).selected_entry() {
                Some(Node::Dir(_)) => toggled(old(self).opened(), old(self).selected()),
                _ => old(self).opened(),
            },
            final(self).selected() == old(self).selected(),
            final(self).files == old(self).files,
            final(self).focused == old(self).focused,
    {
        let on_dir = match self.selected_node() {
            Some(item) => item.is_dir(),
            None => false,
        };
        if on_dir {
            state_toggle_selected(&mut self.state);
        }
    }

    /// Moves the selection to the next visible location; stays at the last
    /// one, and goes to the first where the selection is not visible. Does
    /// nothing where the label tree is empty.
    pub fn down(&mut self)
        ensures
            final(self).selected() == if old(self).files.labels().len() > 0 {
                stepped(old(self).visible(), old(self).selected(), true)
            } else {
                old(self).selected()
            },
            final(self).opened() == old(self).opened(),
            final(self).files == old(self).files,
            final(self).focused == old(self).focused,
    {
        let items = self.files.items_vec();
        if items.len() > 0 {
            state_key_down(&mut self.state, items);
        }
    }

    /// Moves the selection to the previous visible location; stays at the
    /// first one, and goes to the first where the selection is not
    /// visible. Does nothing where the label tree is empty.
    pub fn up(&mut self)
        ensures
            final(self).selected() == if old(self).files.labels().len() > 0 {
                stepped(old(self).visible(), old(self).selected(), false)
            } else {
                old(self).selected()
            },
            final(self).opened() == old(self).opened(),
            final(self).files == old(self).files,
            final(self).focused == old(self).focused,
    {
        let items = self.files.items_vec();
        if items.len() > 0 {
            state_key_up(&mut self.state, items);
        }
    }

    /// The entry that `place` addresses in the directory, found by going
    /// down one level per index. `None` where `place` is empty, an index
    /// is out of range, or a step would pass through a file.
    pub fn get_node(&self, place: &[usize]) -> (node: Option<&Item>)
        ensures
            self.files.tree().resolve(place@) is None ==> node is None,
            self.files.tree().resolve(place@) is Some ==> {
                &&& node is Some
                &&& node->0@ == self.files.tree().resolve(place@)->0
            },
    {
        self.files.dir().nested_child(place)
    }

    /// The selected entry: the one whose label the selection addresses in
    /// the label tree that is drawn. The selection has to address a label;
    /// where that is not known, `selected_node` is the one to call.
    pub fn get_selected(&self) -> (node: &Item)
        requires
            self.files.origin(self.selected()) is Some,
        ensures
            Some(node@) == self.selected_entry(),
    {
        let selected = state_get_selected(&self.state);
        match self.files.dir_location(selected.as_slice()) {
            Some(place) => match self.files.dir().nested_child(place.as_slice()) {
                Some(node) => node,
                None => vstd::pervasive::unreached(),
            },
            None => vstd::pervasive::unreached(),
        }
    }

    /// The selected entry, where the selection addresses a label of the
    /// label tree that is drawn; `None` where it addresses nothing.
    pub fn selected_node(&self) -> (node: Option<&Item>)
        ensures
            self.files.origin(self.selected()) is None ==> node is None,
            self.files.origin(self.selected()) is Some ==> {
                &&& node is Some
                &&& Some(node->0@) == self.selected_entry()
            },
    {
        let selected = state_get_selected(&self.state);
        if self.files.dir_location(selected.as_slice()).is_some() {
            Some(self.get_selected())
        } else {
            None
        }
    }

    /// Removes the entry that `location` addresses in the directory and
    /// hands it back. The selected location is then collapsed, so that the
    /// entry which moves into the freed index is not shown expanded. On
    /// failure nothing changes.
    pub fn remove_file(&mut self, location: &[usize]) -> (removed: Result<Item, TreeError>)
        requires
            old(self).wf(),
        ensures
            final(self).wf(),
            final(self).selected() == old(self).selected(),
            final(self).focused == old(self).focused,
            old(self).files.tree().resolve(location@) is None ==> {
                &&& removed == Err::<Item, TreeError>(TreeError::InvalidLocation)
                &&& final(self).files.tree() == old(self).files.tree()
                &&& final(self).files.filter() == old(self).files.filter()
                &&& final(self).state == old(self).state
            },
            old(self).files.tree().resolve(location@) is Some ==> {
                &&& removed is Ok
                &&& removed->Ok_0@ == old(self).files.tree().resolve(location@)->0
                &&& final(self).files.tree() == old(self).files.tree().remove_at(location@)
                &&& final(self).files.filter() is None
                &&& final(self).opened() == old(self).opened().remove(old(self).selected())
            },
    {
        let removed = self.files.remove_file(location);
        if removed.is_ok() {
            let selected = state_get_selected(&self.state);
            let _ = state_close(&mut self.state, selected.as_slice());
        }
        removed
    }

    /// Appends a file called `name` to the directory that `location`
    /// addresses in the root directory. Fails, with nothing changed, where
    /// `location` does not address a directory; the empty location
    /// addresses none.
    pub fn add_file(&mut self, location: &[usize], name: &str) -> (done: Result<(), TreeError>)
        requires
            old(self).wf(),
        ensures
            final(self).wf(),
            final(self).state == old(self).state,
            final(self).focused == old(self).focused,
            !(old(self).files.tree().resolve(location@) matches Some(Node::Dir(_))) ==> {
                &&& done == Err::<(), TreeError>(TreeError::InvalidLocation)
                &&& final(self).files.tree() == old(self).files.tree()
                &&& final(self).files.filter() == old(self).files.filter()
            },
            old(self).files.tree().resolve(location@) matches Some(Node::Dir(sub)) ==> {
                &&& done is Ok
                &&& final(self).files.tree() == old(self).files.tree().push_at(
                    location@,
                    Node::File(sub.path.push(name@)),
                )
                &&& final(self).files.filter() is None
            },
    {
        match self.files.add_file(location, name) {
            Ok(_) => Ok(()),
            Err(e) => Err(e),
        }
    }

    /// Removes the selected entry and hands it back. The location it had
    /// in the directory and the location of the directory that held it are
    /// both collapsed, so that the entry which moves into the freed index
    /// is not shown expanded by what was left over for that index. The
    /// selection then goes to a location that addresses an entry and is
    /// visible, as `after_removal` says; the locations above it are
    /// expanded, where they were not. Fails, with nothing changed, where
    /// the selection addresses no label.
    pub fn remove_selected(&mut self) -> (removed: Result<Item, TreeError>)
        requires
            old(self).wf(),
        ensures
            final(self).wf(),
            final(self).focused == old(self).focused,
            old(self).files.origin(old(self).selected()) is None ==> {
                &&& removed == Err::<Item, TreeError>(TreeError::InvalidLocation)
                &&& final(self).files.tree() == old(self).files.tree()
                &&& final(self).files.filter() == old(self).files.filter()
                &&& final(self).state == old(self).state
            },
            old(self).files.origin(old(self).selected()) matches Some(place) ==> {
                &&& removed is Ok
                &&& Some(removed->Ok_0@) == old(self).selected_entry()
                &&& final(self).files.tree() == old(self).files.tree().remove_at(place)
                &&& final(self).files.filter() is None
                &&& final(self).selected() == after_removal(
                    place,
                    final(self).files.tree().children.len(),
                )
                &&& final(self).opened() == old(self).opened().remove(place).remove(
                    place.drop_last(),
                ).union(ancestors(final(self).selected()))
                &&& final(self).files.tree().children.len() > 0 ==> {
                    &&& final(self).files.tree().resolve(final(self).selected()) is Some
                    &&& final(self).visible().contains(final(self).selected())
                }
            },
    {
        let selected = state_get_selected(&self.state);
        let place = match self.files.dir_location(selected.as_slice()) {
            None => {
                return Err(TreeError::InvalidLocation);
            },
            Some(place) => place,
        };
        let removed = self.files.remove_file(place.as_slice());
        let depth: usize = place.len() - 1;
        let above = vstd::slice::slice_subrange(place.as_slice(), 0, depth);
        assert(above@ =~= place@.drop_last());
        let _ = state_close(&mut self.state, place.as_slice());
        let _ = state_close(&mut self.state, above);
        let left = self.files.dir().len();
        let mut next = place.clone();
        assert(next@ =~= place@);
        if depth > 0 {
            let _ = next.pop();
        } else if next[0] >= left && next[0] > 0 {
            let before: usize = next[0] - 1;
            next.set(0, before);
            assert(next@ =~= seq![before]);
        }
        self.show(next);
        proof {
            if self.files.tree().children.len() > 0 {
                theorem_removal_selects_live(old(self).files.tree(), place@, self.opened());
            }
        }
        removed
    }

    /// Reveals the first entry with path `path`: a filter is dropped, so
    /// that the whole label tree is drawn, every location above the entry
    /// is expanded, and the entry becomes the selection. Fails, with
    /// nothing changed, where no entry under the root has that path.
    pub fn open_path(&mut self, path: &TreePath) -> (done: Result<(), TreeError>)
        requires
            old(self).wf(),
        ensures
            final(self).wf(),
            final(self).files.tree() == old(self).files.tree(),
            final(self).focused == old(self).focused,
            old(self).files.tree().locate(path@) is None ==> {
                &&& done == Err::<(), TreeError>(TreeError::NotFound)
                &&& final(self).state == old(self).state
                &&& final(self).files.filter() == old(self).files.filter()
            },
            old(self).files.tree().locate(path@) is Some ==> {
                &&& done is Ok
                &&& final(self).files.filter() is None
                &&& final(self).selected() == old(self).files.tree().locate(path@)->0
                &&& final(self).opened() == old(self).opened().union(
                    ancestors(old(self).files.tree().locate(path@)->0),
                )
                &&& final(self).selected_entry() is Some
                &&& final(self).selected_entry()->0.path() == path@
                &&& final(self).visible().contains(final(self).selected())
            },
    {
        let location = match self.files.dir().locate(path) {
            None => {
                return Err(TreeError::NotFound);
            },
            Some(location) => location,
        };
        proof {
            lemma_locate(self.files.tree(), path@);
        }
        if self.files.is_filtered() {
            self.files.clear_filter();
        }
        self.show(location);
        proof {
            theorem_revealed_is_visible(self.files, self.opened(), self.selected());
        }
        Ok(())
    }

    /// Expands every location above `location` and makes `location` the
    /// selection.
    fn show(&mut self, location: Vec<usize>)
        ensures
            final(self).selected() == location@,
            final(self).opened() == old(self).opened().union(ancestors(location@)),
            final(self).files == old(self).files,
            final(self).focused == old(self).focused,
    {
        let mut above: Vec<usize> = Vec::new();
        let mut depth: usize = 0;
        let last: usize = if location.len() > 0 {
            location.len() - 1
        } else {
            0
        };
        assert(self.opened() =~= old(self).opened().union(ancestors_upto(location@, 0)));
        while depth < last
            invariant
                depth <= last,
                last + 1 == location@.len() || last == 0 && location@.len() == 0,
                above@ == location@.take(depth as int),
                self.files == old(self).files,
                self.focused == old(self).focused,
                self.opened() == old(self).opened().union(ancestors_upto(location@, depth as int)),
            decreases last - depth,
        {
            above.push(location[depth]);
            assert(above@ =~= location@.take(depth + 1));
            let _ = state_open(&mut self.state, above.clone());
            depth += 1;
            proof {
                let step = location@.take(depth as int);
                assert(step.is_prefix_of(location@));
                assert forall|a: Seq<usize>| ancestors_upto(location@, depth as int).contains(a)
                    == ancestors_upto(location@, depth - 1).insert(step).contains(a) by {
                    if a.is_prefix_of(location@) && a.len() == depth {
                        assert(a =~= step);
                    }
                }
                assert(self.opened() =~= old(self).opened().union(
                    ancestors_upto(location@, depth as int),
                ));
            }
        }
        assert(ancestors_upto(location@, depth as int) =~= ancestors(location@));
        state_select(&mut self.state, location);
    }

    /// Gives the tree the focus or takes it away. Without the focus the
    /// tree takes no key.
    pub fn focus(&mut self, on: bool)
        ensures
            final(self).focused == on,
            final(self).state == old(self).state,
            final(self).files == old(self).files,
    {
        self.focused = on;
    }
}

/// What a listing builds up to a line is what it builds from the lines
/// before, with that line's entry appended.
proof fn lemma_built_prefix(root: Seq<Seq<char>>, entries: Seq<Entry>, upto: int)
    requires
        0 < upto <= entries.len(),
    ensures
        built(root, entries.take(upto)) == match built(root, entries.take(upto - 1)) {
            None => None,
            Some(tree) => tree.with_node(
                fresh_node(entries[upto - 1].path@, entries[upto - 1].is_dir),
            ),
        },
{
    assert(entries.take(upto).drop_last() =~= entries.take(upto - 1));
}

/// A listing that fails at some line fails as a whole.
proof fn lemma_built_fails(root: Seq<Seq<char>>, entries: Seq<Entry>, upto: int)
    requires
        0 <= upto <= entries.len(),
        built(root, entries.take(upto)) is None,
    ensures
        built(root, entries) is None,
    decreases entries.len() - upto,
{
    if upto == entries.len() {
        assert(entries.take(upto) =~= entries);
    } else {
        lemma_built_prefix(root, entries, upto + 1);
        lemma_built_fails(root, entries, upto + 1);
    }
}

} // verus!
