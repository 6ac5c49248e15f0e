use vstd::prelude::*;

verus! {

/// An absolute path, held as the sequence of its names from the filesystem
/// root down. Two paths are compared name by name.
#[derive(Debug)]
pub struct TreePath {
    parts: Vec<String>,
}

impl View for TreePath {
    type V = Seq<Seq<char>>;

    closed spec fn view(&self) -> Seq<Seq<char>> {
        Seq::new(self.parts@.len(), |i: int| self.parts@[i]@)
    }
}

/// The final name of a path, or the empty name where the path has none.
pub open spec fn last_name(path: Seq<Seq<char>>) -> Seq<char> {
    if path.len() == 0 {
        Seq::empty()
    } else {
        path.last()
    }
}

/// `dir` is the directory that directly holds `path`.
pub open spec fn is_parent(dir: Seq<Seq<char>>, path: Seq<Seq<char>>) -> bool {
    path.len() > 0 && path.drop_last() == dir
}

/// `path` moved from under its first `depth` names to under `base`; a
/// path with fewer names than `depth` becomes `base`.
pub open spec fn rebased(path: Seq<Seq<char>>, depth: int, base: Seq<Seq<char>>) -> Seq<Seq<char>> {
    if 0 <= depth <= path.len() {
        base + path.skip(depth)
    } else {
        base
    }
}

impl TreePath {
    /// The path with no names.
    pub fn new() -> (p: Self)
        ensures
            p@ == Seq::<Seq<char>>::empty(),
    {
        let p = TreePath { parts: Vec::new() };
        assert(p@ =~= Seq::<Seq<char>>::empty());
        p
    }

    /// The path made of the given names, in order.
    pub fn from_parts(parts: Vec<String>) -> (p: Self)
        ensures
            p@.len() == parts@.len(),
            forall|i: int| 0 <= i < parts@.len() ==> p@[i] == parts@[i]@,
    {
        TreePath { parts }
    }

    /// The number of names in the path.
    pub fn len(&self) -> (n: usize)
        ensures
            n == self@.len(),
    {
        self.parts.len()
    }

    /// The name at position `i`, counted from the filesystem root.
    pub fn name(&self, i: usize) -> (name: Option<&str>)
        ensures
            i >= self@.len() ==> name is None,
            i < self@.len() ==> name is Some && name->0@ == self@[i as int],
    {
        if i < self.parts.len() {
            Some(self.parts[i].as_str())
        } else {
            None
        }
    }

    /// This path extended by one name.
    pub fn join(&self, name: &str) -> (p: Self)
        ensures
            p@ == self@.push(name@),
    {
        let mut parts = self.parts.clone();
        parts.push(name.to_owned());
        let p = TreePath { parts };
        assert(p@ =~= self@.push(name@));
        p
    }

    /// The path of the directory that holds this path, if it has one.
    pub fn parent(&self) -> (p: Option<Self>)
        ensures
            self@.len() == 0 ==> p is None,
            self@.len() > 0 ==> p is Some && p->0@ == self@.drop_last(),
    {
        if self.parts.len() == 0 {
            None
        } else {
            let mut parts = self.parts.clone();
            parts.pop();
            let p = TreePath { parts };
            assert(p@ =~= self@.drop_last());
            Some(p)
        }
    }

    /// Whether `base` is this path or one of the directories above it.
    pub fn starts_with(&self, base: &TreePath) -> (b: bool)
        ensures
            b == base@.is_prefix_of(self@),
    {
        if base.parts.len() > self.parts.len() {
            return false;
        }
        let mut i: usize = 0;
        while i < base.parts.len()
            invariant
                i <= base.parts.len() <= self.parts.len(),
                forall|j: int| 0 <= j < i ==> base@[j] == self@[j],
            decreases base.parts.len() - i,
        {
            if base.parts[i] != self.parts[i] {
                assert(base@[i as int] != self@.subrange(0, base@.len() as int)[i as int]);
                return false;
            }
            i += 1;
        }
        assert(base@ =~= self@.subrange(0, base@.len() as int));
        true
    }

    /// Whether this path is the directory that directly holds `path`.
    pub fn is_parent_of(&self, path: &TreePath) -> (b: bool)
        ensures
            b == is_parent(self@, path@),
    {
        let b = path.parts.len() > 0 && path.parts.len() - 1 == self.parts.len()
            && path.starts_with(self);
        proof {
            if b {
                assert(path@.drop_last() =~= self@);
            }
            if is_parent(self@, path@) {
                assert(self@ =~= path@.subrange(0, self@.len() as int));
            }
        }
        b
    }

    /// This path with its first `depth` names replaced by `base`; `base`
    /// itself where the path has fewer names than `depth`.
    pub fn rebase(&self, depth: usize, base: &TreePath) -> (p: Self)
        ensures
            p@ == rebased(self@, depth as int, base@),
    {
        if depth > self.parts.len() {
            return base.clone();
        }
        let mut parts = base.parts.clone();
        let mut i: usize = depth;
        while i < self.parts.len()
            invariant
                depth <= i <= self.parts.len(),
                parts@.len() == base.parts@.len() + (i - depth),
                forall|j: int| 0 <= j < base.parts@.len() ==> parts@[j]@ == base.parts@[j]@,
                forall|j: int|
                    depth <= j < i ==> parts@[base.parts@.len() + j - depth]@ == self.parts@[j]@,
            decreases self.parts.len() - i,
        {
            parts.push(self.parts[i].clone());
            i += 1;
        }
        let p = TreePath { parts };
        assert(p@ =~= rebased(self@, depth as int, base@));
        p
    }
}

impl Clone for TreePath {
    fn clone(&self) -> (p: Self)
        ensures
            p@ == self@,
    {
        let p = TreePath { parts: self.parts.clone() };
        assert(p@ =~= self@);
        p
    }
}

impl PartialEq for TreePath {
    fn eq(&self, other: &TreePath) -> (b: bool) {
        let b = self.parts.len() == other.parts.len() && self.starts_with(other);
        proof {
            if b {
                assert(self@ =~= other@);
            }
            if self@ == other@ {
                assert(other@ =~= self@.subrange(0, other@.len() as int));
            }
        }
        b
    }
}

impl vstd::std_specs::cmp::PartialEqSpecImpl for TreePath {
    open spec fn obeys_eq_spec() -> bool {
        true
    }

    open spec fn eq_spec(&self, other: &TreePath) -> bool {
        self@ == other@
    }
}

/// The final name of `path` as text; empty where the path has no names.
pub fn last_of_path(path: &TreePath) -> (name: String)
    ensures
        name@ == last_name(path@),
{
    let n = path.len();
    if n == 0 {
        String::new()
    } else {
        path.parts[n - 1].clone()
    }
}

} // verus!
