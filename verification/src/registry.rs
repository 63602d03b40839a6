use vstd::prelude::*;
use crate::errors::LMEAPIErrors;
use crate::molecule::Atom;
use crate::workspace::Workspace;

verus! {

/// The shared directory of workspaces: at any instant each name is bound to
/// at most one workspace. Creation is check-then-insert inside one critical
/// section, so a batch of concurrent creates of the same name admits one
/// winner; a serving layer wraps a registry value in its own locking.
pub struct Registry {
    entries: Vec<(String, Workspace)>,
}

impl Registry {
    /// The bound names, in insertion order.
    pub closed spec fn names(self) -> Seq<Seq<char>> {
        self.entries@.map_values(|p: (String, Workspace)| p.0@)
    }

    /// The workspaces, in the same order as their names.
    pub closed spec fn workspaces(self) -> Seq<Workspace> {
        self.entries@.map_values(|p: (String, Workspace)| p.1)
    }

    /// Names are unique at any instant.
    pub open spec fn wf(self) -> bool {
        forall|i: int, j: int|
            0 <= i < j < self.names().len() ==> self.names()[i] != self.names()[j]
    }

    /// An empty directory.
    pub fn new() -> (r: Registry)
        ensures
            r.wf(),
            r.names().len() == 0,
            r.workspaces().len() == 0,
    {
        Registry { entries: Vec::new() }
    }

    /// The position of a name, if it is bound.
    fn find_index(&self, name: &String) -> (r: Option<usize>)
        ensures
            match r {
                Some(j) => j < self.names().len() && self.names()[j as int] == name@,
                None => !self.names().contains(name@),
            },
    {
        let n = self.entries.len();
        let mut i: usize = 0;
        while i < n
            invariant
                i <= n,
                n == self.entries@.len(),
                forall|t: int| 0 <= t < i ==> (#[trigger] self.entries@[t]).0@ != name@,
            decreases n - i,
        {
            if self.entries[i].0 == *name {
                proof {
                    assert(self.names()[i as int] == self.entries@[i as int].0@);
                }
                return Some(i);
            }
            i = i + 1;
        }
        proof {
            if self.names().contains(name@) {
                let t = choose|t: int|
                    0 <= t < self.names().len() && self.names()[t] == name@;
                assert(self.entries@[t].0@ == name@);
            }
        }
        None
    }

    /// Binds a fresh name to a new workspace of the given capacity; fails
    /// with `WorkspaceNameConfilict`, touching nothing, exactly when the
    /// name is already bound.
    pub fn create(&mut self, name: String, core_size: usize) -> (r: Result<(), LMEAPIErrors>)
        requires
            old(self).wf(),
        ensures
            final (self).wf(),
            r is Ok <==> !old(self).names().contains(name@),
            old(self).names().contains(name@) ==> r == Err::<(), LMEAPIErrors>(
                LMEAPIErrors::WorkspaceNameConfilict,
            ) && *final (self) == *old(self),
            !old(self).names().contains(name@) ==> r == Ok::<(), LMEAPIErrors>(())
                && final (self).names() == old(self).names().push(name@)
                && final (self).workspaces().len() == old(self).workspaces().len() + 1
                && (forall|t: int|
                    0 <= t < old(self).workspaces().len() ==> (#[trigger] final (self).workspaces()[t]) == old(self).workspaces()[t])
                && final (self).workspaces().last().wf()
                && final (self).workspaces().last().spec_core_size() == core_size
                && (forall|i: int|
                    0 <= i < core_size ==> (#[trigger] final (self).workspaces().last().stacks_view()[i]) is Some
                        && final (self).workspaces().last().stacks_view()[i]->0.atom_map()
                            == Map::<usize, Option<Atom>>::empty()
                        && final (self).workspaces().last().stacks_view()[i]->0.class_set()
                            == Set::<(Seq<char>, usize)>::empty())
                && final (self).workspaces().last().ids_map() == Map::<Seq<char>, usize>::empty()
                && final (self).workspaces().last().class_set() == Set::<(Seq<char>, usize)>::empty(),
    {
        match self.find_index(&name) {
            Some(j) => {
                proof {
                    assert(self.names().contains(name@)) by {
                        assert(self.names()[j as int] == name@);
                    }
                }
                Err(LMEAPIErrors::WorkspaceNameConfilict)
            },
            None => {
                let w = Workspace::new(core_size);
                let ghost pre = self.entries@;
                self.entries.push((name, w));
                proof {
                    assert(self.names() =~= old(self).names().push(name@));
                    assert(self.workspaces() =~= old(self).workspaces().push(w));
                    assert forall|i: int, j: int|
                        0 <= i < j < self.names().len() implies self.names()[i]
                        != self.names()[j] by {
                        if j == self.names().len() - 1 && self.names()[i] == name@ {
                            assert(old(self).names()[i] == name@);
                            assert(old(self).names().contains(name@));
                        }
                    }
                    assert(self.workspaces().last() == w);
                }
                Ok(())
            },
        }
    }

    /// Unbinds a name; fails with `WorkspaceNotFound`, touching nothing,
    /// exactly when the name is not bound. After success the name is free
    /// again; every other binding keeps its relative order.
    pub fn remove(&mut self, name: &String) -> (r: Result<(), LMEAPIErrors>)
        requires
            old(self).wf(),
        ensures
            final (self).wf(),
            r is Ok <==> old(self).names().contains(name@),
            !old(self).names().contains(name@) ==> r == Err::<(), LMEAPIErrors>(
                LMEAPIErrors::WorkspaceNotFound,
            ) && *final (self) == *old(self),
            old(self).names().contains(name@) ==> r == Ok::<(), LMEAPIErrors>(()) && exists|j: int|
                0 <= j < old(self).names().len() && old(self).names()[j] == name@ && final (self).names() == old(self).names().remove(j) && final (self).workspaces() == old(self).workspaces().remove(j),
            old(self).names().contains(name@) ==> !final (self).names().contains(name@),
    {
        match self.find_index(name) {
            None => Err(LMEAPIErrors::WorkspaceNotFound),
            Some(j) => {
                proof {
                    assert(self.names().contains(name@)) by {
                        assert(self.names()[j as int] == name@);
                    }
                }
                let ghost pre = self.entries@;
                self.entries.remove(j);
                proof {
                    assert(self.names() =~= old(self).names().remove(j as int));
                    assert(self.workspaces() =~= old(self).workspaces().remove(j as int));
                    assert forall|a: int, b: int|
                        0 <= a < b < self.names().len() implies self.names()[a]
                        != self.names()[b] by {
                        let a0: int = if a < j { a } else { a + 1 };
                        let b0: int = if b < j { b } else { b + 1 };
                        assert(self.names()[a] == old(self).names()[a0]);
                        assert(self.names()[b] == old(self).names()[b0]);
                    }
                    assert forall|t: int|
                        0 <= t < self.names().len() implies self.names()[t] != name@ by {
                        let t0: int = if t < j { t } else { t + 1 };
                        assert(self.names()[t] == old(self).names()[t0]);
                        assert(old(self).names()[j as int] == name@);
                    }
                    assert(!self.names().contains(name@)) by {
                        if self.names().contains(name@) {
                            let t = choose|t: int|
                                0 <= t < self.names().len() && self.names()[t] == name@;
                        }
                    }
                }
                Ok(())
            },
        }
    }

    /// The resolution step every request goes through once: the position of
    /// the named workspace, to be used for the rest of that request. Fails
    /// with `WorkspaceNotFound` exactly when the name is not bound.
    pub fn resolve(&self, name: &String) -> (r: Result<usize, LMEAPIErrors>)
        ensures
            self.names().contains(name@) ==> r is Ok && r->Ok_0 < self.names().len()
                && self.names()[r->Ok_0 as int] == name@,
            !self.names().contains(name@) ==> r == Err::<usize, LMEAPIErrors>(
                LMEAPIErrors::WorkspaceNotFound,
            ),
    {
        match self.find_index(name) {
            Some(j) => {
                proof {
                    assert(self.names().contains(name@)) by {
                        assert(self.names()[j as int] == name@);
                    }
                }
                Ok(j)
            },
            None => Err(LMEAPIErrors::WorkspaceNotFound),
        }
    }

    /// Read access to the workspace at a resolved position.
    pub fn workspace_at(&self, j: usize) -> (r: &Workspace)
        requires
            j < self.workspaces().len(),
        ensures
            *r == self.workspaces()[j as int],
    {
        proof {
            assert(self.workspaces()[j as int] == self.entries@[j as int].1);
        }
        &self.entries[j].1
    }

    /// Write access to the workspace at a resolved position. Only that
    /// workspace changes; every name keeps its binding.
    pub fn workspace_at_mut(&mut self, j: usize) -> (r: &mut Workspace)
        requires
            j < old(self).workspaces().len(),
        ensures
            *r == old(self).workspaces()[j as int],
            final (self).names().len() == old(self).names().len(),
            forall|t: int|
                0 <= t < old(self).names().len() ==> final (self).names()[t] == old(self).names()[t],
            final (self).workspaces().len() == old(self).workspaces().len(),
            forall|t: int|
                0 <= t < old(self).workspaces().len() && t != j ==> final (self).workspaces()[t]
                    == old(self).workspaces()[t],
            final (self).workspaces()[j as int] == *final (r),
    {
        &mut self.entries[j].1
    }
}

/// After a create of a name succeeds, that name is bound, so a second
/// create of the same name before any remove meets exactly the clause of
/// `Registry::create` that fails with `WorkspaceNameConfilict`: names are
/// unique for as long as they are bound.
pub proof fn lemma_create_unique(pre: Registry, post: Registry, name: Seq<char>)
    requires
        !pre.names().contains(name),
        post.names() == pre.names().push(name),
    ensures
        post.names().contains(name),
{
    assert(post.names()[post.names().len() - 1] == name);
}

} // verus!
