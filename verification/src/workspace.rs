use vstd::prelude::*;
use crate::errors::WorkspaceError;
use crate::molecule::{Atom, Molecule, Layer, pair_set, lemma_pair_set_push, lemma_take_succ,
    fill_atoms, atoms_all_present, list_to_map, lemma_all_present_push, lemma_all_present_some,
    lemma_list_map_push};

verus! {

/// The id-name directory described by a list of (name, atom index) entries,
/// later entries for the same name superseding earlier ones.
pub open spec fn ids_as_map(s: Seq<(String, usize)>) -> Map<Seq<char>, usize>
    decreases s.len(),
{
    if s.len() == 0 {
        Map::empty()
    } else {
        ids_as_map(s.drop_last()).insert(s.last().0@, s.last().1)
    }
}

/// Appending one entry to an id-name list inserts it into the directory.
pub proof fn lemma_ids_map_push(s: Seq<(String, usize)>, e: (String, usize))
    ensures
        ids_as_map(s.push(e)) == ids_as_map(s).insert(e.0@, e.1),
{
    assert(s.push(e).drop_last() =~= s);
    assert(s.push(e).last() == e);
}

/// A name that no entry of the list holds is absent from the directory.
pub proof fn lemma_ids_map_key_absent(s: Seq<(String, usize)>, n: Seq<char>)
    requires
        forall|j: int| 0 <= j < s.len() ==> (#[trigger] s[j]).0@ != n,
    ensures
        !ids_as_map(s).contains_key(n),
    decreases s.len(),
{
    if s.len() > 0 {
        assert(forall|j: int|
            0 <= j < s.drop_last().len() ==> (#[trigger] s.drop_last()[j]).0@ == s[j].0@);
        lemma_ids_map_key_absent(s.drop_last(), n);
    }
}

/// A name the directory holds comes from some entry of the list.
pub proof fn lemma_ids_map_contains_exists(s: Seq<(String, usize)>, n: Seq<char>)
    requires
        ids_as_map(s).contains_key(n),
    ensures
        exists|j: int| 0 <= j < s.len() && (#[trigger] s[j]).0@ == n,
    decreases s.len(),
{
    if s.last().0@ == n {
        assert(s[s.len() - 1].0@ == n);
    } else {
        lemma_ids_map_contains_exists(s.drop_last(), n);
        let j = choose|j: int| 0 <= j < s.drop_last().len() && (#[trigger] s.drop_last()[j]).0@ == n;
        assert(s[j].0@ == n);
    }
}

/// The directory's entry for a name comes from the last entry holding it.
pub proof fn lemma_ids_map_last_occurrence(s: Seq<(String, usize)>, j: int)
    requires
        0 <= j < s.len(),
        forall|t: int| j < t < s.len() ==> (#[trigger] s[t]).0@ != s[j].0@,
    ensures
        ids_as_map(s).contains_key(s[j].0@),
        ids_as_map(s)[s[j].0@] == s[j].1,
    decreases s.len(),
{
    if j == s.len() - 1 {
    } else {
        assert(s.drop_last()[j] == s[j]);
        assert(forall|t: int|
            j < t < s.drop_last().len() ==> (#[trigger] s.drop_last()[t]).0@ == s[t].0@);
        lemma_ids_map_last_occurrence(s.drop_last(), j);
    }
}

/// Whether a list of stack indices targets the slot at `j`.
pub open spec fn targeted(idxs: Seq<usize>, j: int) -> bool {
    exists|t: int| 0 <= t < idxs.len() && idxs[t] == j
}

/// A named, capacity-bounded container of stacks, together with the
/// workspace-level id-name directory and class-tag registry. Each stack slot
/// holds one scene value until it is removed; slots are never re-created.
pub struct Workspace {
    core_size: usize,
    stacks: Vec<Option<Molecule>>,
    ids: Vec<(String, usize)>,
    classes: Vec<(String, usize)>,
}

impl Workspace {
    /// The fixed capacity chosen at creation.
    pub closed spec fn spec_core_size(self) -> usize {
        self.core_size
    }

    /// The stack slots, in order; an empty slot is a removed stack.
    pub closed spec fn stacks_view(self) -> Seq<Option<Molecule>> {
        self.stacks@
    }

    /// The id-name directory: each name resolves to one atom index.
    pub closed spec fn ids_map(self) -> Map<Seq<char>, usize> {
        ids_as_map(self.ids@)
    }

    /// The workspace-level class-tag list, in insertion order.
    pub closed spec fn spec_classes(self) -> Seq<(String, usize)> {
        self.classes@
    }

    /// The workspace-level class tags as a set.
    pub open spec fn class_set(self) -> Set<(Seq<char>, usize)> {
        pair_set(self.spec_classes())
    }

    /// The one structural invariant: there is a slot for every index below
    /// the capacity and no other.
    pub open spec fn wf(self) -> bool {
        self.stacks_view().len() == self.spec_core_size()
    }

    /// Whether a stack index addresses a readable (present) stack.
    pub open spec fn readable(self, idx: usize) -> bool {
        idx < self.spec_core_size() && self.stacks_view()[idx as int] is Some
    }

    /// A workspace with `core_size` stacks, each holding an empty scene
    /// value, and empty id-name and class registries.
    pub fn new(core_size: usize) -> (w: Workspace)
        ensures
            w.wf(),
            w.spec_core_size() == core_size,
            forall|i: int|
                0 <= i < core_size ==> (#[trigger] w.stacks_view()[i]) is Some
                    && w.stacks_view()[i]->0.atom_map() == Map::<usize, Option<Atom>>::empty()
                    && w.stacks_view()[i]->0.class_set() == Set::<(Seq<char>, usize)>::empty(),
            w.ids_map() == Map::<Seq<char>, usize>::empty(),
            w.class_set() == Set::<(Seq<char>, usize)>::empty(),
    {
        let mut stacks: Vec<Option<Molecule>> = Vec::new();
        let mut i: usize = 0;
        while i < core_size
            invariant
                i <= core_size,
                stacks@.len() == i,
                forall|t: int|
                    0 <= t < i ==> (#[trigger] stacks@[t]) is Some && stacks@[t]->0.atom_map()
                        == Map::<usize, Option<Atom>>::empty() && stacks@[t]->0.class_set()
                        == Set::<(Seq<char>, usize)>::empty(),
            decreases core_size - i,
        {
            stacks.push(Some(Molecule::empty()));
            i = i + 1;
        }
        let w = Workspace { core_size, stacks, ids: Vec::new(), classes: Vec::new() };
        proof {
            assert(w.class_set() =~= Set::<(Seq<char>, usize)>::empty());
        }
        w
    }

    /// The number of stack slots this workspace was created with.
    pub fn core_size(&self) -> (r: usize)
        ensures
            r == self.spec_core_size(),
    {
        self.core_size
    }

    /// A snapshot of the stack at an index. Fails with `StackNotFound` when
    /// the index is at or beyond the capacity or the slot is empty.
    pub fn read_stack(&self, stack_idx: usize) -> (r: Result<Molecule, WorkspaceError>)
        requires
            self.wf(),
        ensures
            self.readable(stack_idx) ==> r is Ok && r->Ok_0.atom_map() == self.stacks_view()[
                stack_idx as int
            ]->0.atom_map() && r->Ok_0.class_set() == self.stacks_view()[stack_idx as int]->0.class_set(),
            !self.readable(stack_idx) ==> r == Err::<Molecule, WorkspaceError>(
                WorkspaceError::StackNotFound,
            ),
    {
        if stack_idx < self.stacks.len() {
            match &self.stacks[stack_idx] {
                Some(m) => Ok(m.duplicate()),
                None => Err(WorkspaceError::StackNotFound),
            }
        } else {
            Err(WorkspaceError::StackNotFound)
        }
    }

    /// Clears the slot at an index; removing an already-empty slot is an
    /// error, not a no-op. Fails with `StackNotFound` exactly as a read does.
    pub fn remove_stack(&mut self, stack_idx: usize) -> (r: Result<(), WorkspaceError>)
        requires
            old(self).wf(),
        ensures
            final (self).wf(),
            old(self).readable(stack_idx) ==> r is Ok
                && final (self).stacks_view() == old(self).stacks_view().update(stack_idx as int, None::<Molecule>)
                && final (self).spec_core_size() == old(self).spec_core_size()
                && final (self).ids_map() == old(self).ids_map()
                && final (self).class_set() == old(self).class_set(),
            !old(self).readable(stack_idx) ==> r == Err::<(), WorkspaceError>(
                WorkspaceError::StackNotFound,
            ) && *final (self) == *old(self),
    {
        if stack_idx < self.stacks.len() && self.stacks[stack_idx].is_some() {
            self.stacks[stack_idx] = None;
            Ok(())
        } else {
            Err(WorkspaceError::StackNotFound)
        }
    }

    /// The workspace-level class tags, as the list the pipeline resolves
    /// class names through.
    pub fn get_classes(&self) -> (r: &Vec<(String, usize)>)
        ensures
            r@ == self.spec_classes(),
            pair_set(r@) == self.class_set(),
    {
        &self.classes
    }

    /// The atom index an id-name resolves to, if the name is bound.
    pub fn get_name(&self, id_name: &String) -> (r: Option<usize>)
        ensures
            self.ids_map().contains_key(id_name@) ==> r == Some(self.ids_map()[id_name@]),
            !self.ids_map().contains_key(id_name@) ==> r is None,
    {
        let mut i: usize = self.ids.len();
        while i > 0
            invariant
                i <= self.ids@.len(),
                forall|t: int|
                    i <= t < self.ids@.len() ==> (#[trigger] self.ids@[t]).0@ != id_name@,
            decreases i,
        {
            i = i - 1;
            if self.ids[i].0 == *id_name {
                proof {
                    lemma_ids_map_last_occurrence(self.ids@, i as int);
                }
                return Some(self.ids[i].1);
            }
        }
        proof {
            lemma_ids_map_key_absent(self.ids@, id_name@);
        }
        None
    }

    /// Binds an id-name to an atom index, superseding any earlier binding of
    /// the same name. Never fails.
    pub fn set_name(&mut self, atom_idx: usize, id_name: String) -> (r: Result<(), WorkspaceError>)
        ensures
            r == Ok::<(), WorkspaceError>(()),
            final (self).ids_map() == old(self).ids_map().insert(id_name@, atom_idx),
            final (self).spec_core_size() == old(self).spec_core_size(),
            final (self).stacks_view() == old(self).stacks_view(),
            final (self).class_set() == old(self).class_set(),
            old(self).wf() ==> final (self).wf(),
    {
        proof {
            lemma_ids_map_push(self.ids@, (id_name, atom_idx));
        }
        self.ids.push((id_name, atom_idx));
        Ok(())
    }

    /// Unbinds every id-name that resolves to an atom index. Never fails;
    /// an index with no binding is recorded as a no-op.
    pub fn remove_name(&mut self, atom_idx: usize) -> (r: Result<(), WorkspaceError>)
        ensures
            r == Ok::<(), WorkspaceError>(()),
            final (self).ids_map() == Map::<Seq<char>, usize>::new(
                |n: Seq<char>| old(self).ids_map().contains_key(n) && old(self).ids_map()[n]
                    != atom_idx,
                |n: Seq<char>| old(self).ids_map()[n],
            ),
            final (self).spec_core_size() == old(self).spec_core_size(),
            final (self).stacks_view() == old(self).stacks_view(),
            final (self).class_set() == old(self).class_set(),
            old(self).wf() ==> final (self).wf(),
    {
        let ghost m = ids_as_map(self.ids@);
        let mut kept: Vec<(String, usize)> = Vec::new();
        let mut seen: Vec<String> = Vec::new();
        let mut i: usize = self.ids.len();
        while i > 0
            invariant
                i <= self.ids@.len(),
                m == ids_as_map(self.ids@),
                forall|t: int|
                    i <= t < self.ids@.len() ==> names_has(seen@, (#[trigger] self.ids@[t]).0@),
                forall|j: int|
                    0 <= j < seen@.len() ==> exists|t: int|
                        i <= t < self.ids@.len() && (#[trigger] self.ids@[t]).0@ == (
                        #[trigger] seen@[j])@,
                ids_as_map(kept@) == Map::<Seq<char>, usize>::new(
                    |n: Seq<char>| m.contains_key(n) && m[n] != atom_idx && names_has(seen@, n),
                    |n: Seq<char>| m[n],
                ),
            decreases i,
        {
            i = i - 1;
            let v = self.ids[i].1;
            if !names_contain(&seen, &self.ids[i].0) {
                proof {
                    assert forall|t: int|
                        (i as int) < t < self.ids@.len() implies (#[trigger] self.ids@[t]).0@
                        != self.ids@[i as int].0@ by {
                        if self.ids@[t].0@ == self.ids@[i as int].0@ {
                            assert(names_has(seen@, self.ids@[t].0@));
                        }
                    }
                    lemma_ids_map_last_occurrence(self.ids@, i as int);
                }
                let ghost pre_seen = seen@;
                let ghost pre_kept = kept@;
                seen.push(self.ids[i].0.clone());
                if v != atom_idx {
                    proof {
                        lemma_ids_map_push(pre_kept, (self.ids@[i as int].0, v));
                    }
                    kept.push((self.ids[i].0.clone(), v));
                }
                proof {
                    assert(seen@[pre_seen.len() as int]@ == self.ids@[i as int].0@);
                    assert(forall|j: int| 0 <= j < pre_seen.len() ==> pre_seen[j] == seen@[j]);
                    assert forall|t: int|
                        i <= t < self.ids@.len() implies names_has(
                        seen@,
                        (#[trigger] self.ids@[t]).0@,
                    ) by {
                        if self.ids@[t].0@ == self.ids@[i as int].0@ {
                            assert(seen@[pre_seen.len() as int]@ == self.ids@[t].0@);
                        } else {
                            let j = choose|j: int|
                                0 <= j < pre_seen.len() && (#[trigger] pre_seen[j])@
                                    == self.ids@[t].0@;
                            assert(seen@[j]@ == self.ids@[t].0@);
                        }
                    }
                    assert forall|n: Seq<char>|
                        names_has(seen@, n) implies (n == self.ids@[i as int].0@ || names_has(
                        pre_seen,
                        n,
                    )) by {
                        let j = choose|j: int| 0 <= j < seen@.len() && (#[trigger] seen@[j])@ == n;
                        if j < pre_seen.len() {
                            assert(pre_seen[j]@ == n);
                        }
                    }
                    assert(ids_as_map(kept@) =~= Map::<Seq<char>, usize>::new(
                        |n: Seq<char>| m.contains_key(n) && m[n] != atom_idx && names_has(seen@, n),
                        |n: Seq<char>| m[n],
                    ));
                }
            }
        }
        proof {
            assert forall|n: Seq<char>| m.contains_key(n) implies names_has(seen@, n) by {
                lemma_ids_map_contains_exists(self.ids@, n);
            }
            assert(ids_as_map(kept@) =~= Map::<Seq<char>, usize>::new(
                |n: Seq<char>| m.contains_key(n) && m[n] != atom_idx,
                |n: Seq<char>| m[n],
            ));
        }
        self.ids = kept;
        Ok(())
    }

    /// Adds workspace-level class tags; a tag already present stays, so the
    /// operation is idempotent. Never fails.
    pub fn set_class_name(&mut self, pairs: Vec<(String, usize)>)
        ensures
            final (self).class_set() == old(self).class_set().union(pair_set(pairs@)),
            final (self).spec_core_size() == old(self).spec_core_size(),
            final (self).stacks_view() == old(self).stacks_view(),
            final (self).ids_map() == old(self).ids_map(),
            old(self).wf() ==> final (self).wf(),
    {
        let n = pairs.len();
        let mut i: usize = 0;
        while i < n
            invariant
                i <= n,
                n == pairs@.len(),
                self.core_size == old(self).core_size,
                self.stacks@ == old(self).stacks@,
                self.ids@ == old(self).ids@,
                self.class_set() == old(self).class_set().union(pair_set(pairs@.take(i as int))),
            decreases n - i,
        {
            let ghost pre = self.classes@;
            let name = pairs[i].0.clone();
            let idx = pairs[i].1;
            proof {
                lemma_take_succ(pairs@, i as int);
                lemma_pair_set_push(pairs@.take(i as int), pairs@[i as int]);
            }
            if !pairs_contain(&self.classes, &name, idx) {
                proof {
                    lemma_pair_set_push(pre, (name, idx));
                    assert(old(self).class_set().union(pair_set(pairs@.take(i as int))).insert(
                        (pairs@[i as int].0@, pairs@[i as int].1),
                    ) =~= old(self).class_set().union(pair_set(pairs@.take(i as int + 1))));
                }
                self.classes.push((name, idx));
            } else {
                proof {
                    assert(old(self).class_set().union(pair_set(pairs@.take(i as int))) =~= old(
                        self,
                    ).class_set().union(pair_set(pairs@.take(i as int + 1))));
                }
            }
            i = i + 1;
        }
        proof {
            assert(pairs@.take(n as int) =~= pairs@);
        }
    }

    /// Removes workspace-level class tags; a tag already absent is passed
    /// over, so the operation is idempotent and symmetric to adding. Never
    /// fails.
    pub fn unset_class_name(&mut self, pairs: Vec<(String, usize)>)
        ensures
            final (self).class_set() == old(self).class_set().difference(pair_set(pairs@)),
            final (self).spec_core_size() == old(self).spec_core_size(),
            final (self).stacks_view() == old(self).stacks_view(),
            final (self).ids_map() == old(self).ids_map(),
            old(self).wf() ==> final (self).wf(),
    {
        let mut kept: Vec<(String, usize)> = Vec::new();
        let n = self.classes.len();
        let mut i: usize = 0;
        while i < n
            invariant
                i <= n,
                n == self.classes@.len(),
                pair_set(kept@) == pair_set(self.classes@.take(i as int)).difference(
                    pair_set(pairs@),
                ),
            decreases n - i,
        {
            let ghost pre = kept@;
            proof {
                lemma_take_succ(self.classes@, i as int);
                lemma_pair_set_push(self.classes@.take(i as int), self.classes@[i as int]);
            }
            if !pairs_contain(&pairs, &self.classes[i].0, self.classes[i].1) {
                proof {
                    lemma_pair_set_push(pre, self.classes@[i as int]);
                    assert(pair_set(pre).difference(pair_set(pairs@)).insert(
                        (self.classes@[i as int].0@, self.classes@[i as int].1),
                    ) =~= pair_set(self.classes@.take(i as int + 1)).difference(pair_set(pairs@)));
                }
                kept.push((self.classes[i].0.clone(), self.classes[i].1));
            } else {
                proof {
                    assert(pair_set(self.classes@.take(i as int)).difference(pair_set(pairs@))
                        =~= pair_set(self.classes@.take(i as int + 1)).difference(
                        pair_set(pairs@),
                    ));
                }
            }
            i = i + 1;
        }
        proof {
            assert(self.classes@.take(n as int) =~= self.classes@);
        }
        self.classes = kept;
    }
}

/// What one targeted slot looks like after a patch write: present, its atom
/// table updated at every index the patch mentions, its tags extended.
pub open spec fn patched_slot(
    pre: Option<Molecule>,
    post: Option<Molecule>,
    am: Map<usize, Option<Atom>>,
    cs: Set<(Seq<char>, usize)>,
) -> bool {
    &&& pre is Some
    &&& post is Some
    &&& post->0.atom_map() == pre->0.atom_map().union_prefer_right(am)
    &&& post->0.class_set() == pre->0.class_set().union(cs)
}

/// What one targeted slot looks like after an overlay: present, filled at
/// every index the layer holds an atom for, nothing cleared, tags extended.
pub open spec fn filled_slot(
    pre: Option<Molecule>,
    post: Option<Molecule>,
    am: Map<usize, Option<Atom>>,
    cs: Set<(Seq<char>, usize)>,
) -> bool {
    &&& pre is Some
    &&& post is Some
    &&& post->0.atom_map() == fill_atoms(pre->0.atom_map(), am)
    &&& post->0.class_set() == pre->0.class_set().union(cs)
}

/// The class members of one scene value that actually hold an atom, each
/// with its atom: what the transform pipeline reads from one stack.
pub open spec fn member_map(
    m: Molecule,
    ws_classes: Set<(Seq<char>, usize)>,
    name: Seq<char>,
) -> Map<usize, Atom> {
    Map::new(
        |k: usize| (m.class_set().contains((name, k)) || ws_classes.contains((name, k)))
            && m.atom_map().contains_key(k) && m.atom_map()[k] is Some,
        |k: usize| m.atom_map()[k]->0,
    )
}

/// The part of an atom map reached by walking a list of indices.
pub open spec fn collect_map(mm: Map<usize, Atom>, members: Seq<usize>) -> Map<usize, Atom>
    decreases members.len(),
{
    if members.len() == 0 {
        Map::empty()
    } else {
        let rest = collect_map(mm, members.drop_last());
        let k = members.last();
        if mm.contains_key(k) {
            rest.insert(k, mm[k])
        } else {
            rest
        }
    }
}

/// Walking one more index picks up that index's entry, if there is one.
pub proof fn lemma_collect_map_push(mm: Map<usize, Atom>, s: Seq<usize>, k: usize)
    ensures
        collect_map(mm, s.push(k)) == if mm.contains_key(k) {
            collect_map(mm, s).insert(k, mm[k])
        } else {
            collect_map(mm, s)
        },
{
    assert(s.push(k).drop_last() =~= s);
    assert(s.push(k).last() == k);
}

/// Walking a list of indices picks up exactly the entries at listed indices.
pub proof fn lemma_collect_map_props(mm: Map<usize, Atom>, s: Seq<usize>)
    ensures
        forall|k: usize|
            #[trigger] collect_map(mm, s).contains_key(k) <==> (mm.contains_key(k) && s.contains(
                k,
            )),
        forall|k: usize|
            #[trigger] collect_map(mm, s).contains_key(k) ==> collect_map(mm, s)[k] == mm[k],
    decreases s.len(),
{
    if s.len() > 0 {
        lemma_collect_map_props(mm, s.drop_last());
        let rest = collect_map(mm, s.drop_last());
        let lastk = s.last();
        assert forall|k: usize|
            #[trigger] collect_map(mm, s).contains_key(k) implies (mm.contains_key(k)
            && s.contains(k)) by {
            if k == lastk && mm.contains_key(lastk) {
                assert(s[s.len() - 1] == k);
                assert(s.contains(k));
            } else {
                assert(rest.contains_key(k));
                assert(s.drop_last().contains(k));
                let t = choose|t: int| 0 <= t < s.drop_last().len() && s.drop_last()[t] == k;
                assert(s[t] == k);
                assert(s.contains(k));
            }
        }
        assert forall|k: usize|
            mm.contains_key(k) && s.contains(k) implies #[trigger] collect_map(
            mm,
            s,
        ).contains_key(k) by {
            let t = choose|t: int| 0 <= t < s.len() && s[t] == k;
            if t < s.len() - 1 {
                assert(s.drop_last()[t] == k);
                assert(s.drop_last().contains(k));
                assert(rest.contains_key(k));
            } else {
                assert(k == lastk);
            }
        }
        assert forall|k: usize|
            #[trigger] collect_map(mm, s).contains_key(k) implies collect_map(mm, s)[k]
            == mm[k] by {
            if !(k == lastk && mm.contains_key(lastk)) {
                assert(rest.contains_key(k));
            }
        }
    }
}

impl Workspace {
    /// Validates a batch of stack indices: every index must lie below the
    /// capacity, and every addressed slot must be present. The capacity
    /// check comes first, so a batch that breaks both rules reports
    /// `IndexOutOfCoreSize`.
    fn check_targets(&self, stack_idxs: &Vec<usize>) -> (r: Result<(), WorkspaceError>)
        requires
            self.wf(),
        ensures
            (exists|t: int|
                0 <= t < stack_idxs@.len() && (#[trigger] stack_idxs@[t]) >= self.spec_core_size())
                ==> r == Err::<(), WorkspaceError>(WorkspaceError::IndexOutOfCoreSize),
            (forall|t: int|
                0 <= t < stack_idxs@.len() ==> (#[trigger] stack_idxs@[t])
                    < self.spec_core_size()) && (exists|t: int|
                0 <= t < stack_idxs@.len() && !self.readable(#[trigger] stack_idxs@[t])) ==> r
                == Err::<(), WorkspaceError>(WorkspaceError::StackNotFound),
            (forall|t: int| 0 <= t < stack_idxs@.len() ==> self.readable(#[trigger] stack_idxs@[t]))
                ==> r == Ok::<(), WorkspaceError>(()),
            r is Ok ==> forall|t: int|
                0 <= t < stack_idxs@.len() ==> self.readable(#[trigger] stack_idxs@[t]),
    {
        let n = stack_idxs.len();
        let mut i: usize = 0;
        while i < n
            invariant
                i <= n,
                n == stack_idxs@.len(),
                forall|t: int| 0 <= t < i ==> (#[trigger] stack_idxs@[t]) < self.spec_core_size(),
            decreases n - i,
        {
            if stack_idxs[i] >= self.core_size {
                return Err(WorkspaceError::IndexOutOfCoreSize);
            }
            i = i + 1;
        }
        let mut i: usize = 0;
        while i < n
            invariant
                i <= n,
                n == stack_idxs@.len(),
                self.wf(),
                forall|t: int| 0 <= t < n ==> (#[trigger] stack_idxs@[t]) < self.spec_core_size(),
                forall|t: int| 0 <= t < i ==> self.readable(#[trigger] stack_idxs@[t]),
            decreases n - i,
        {
            if self.stacks[stack_idxs[i]].is_none() {
                return Err(WorkspaceError::StackNotFound);
            }
            i = i + 1;
        }
        Ok(())
    }

    /// Applies a patch to every targeted stack under the replace-per-index
    /// contract. All indices are validated before any stack is touched, so a
    /// failure leaves every stack in the batch unchanged: a capacity
    /// violation reports `IndexOutOfCoreSize`, an empty slot
    /// `StackNotFound`.
    pub fn write_to_stacks(&mut self, stack_idxs: &Vec<usize>, patch: &Molecule) -> (r: Result<
        (),
        WorkspaceError,
    >)
        requires
            old(self).wf(),
        ensures
            final (self).wf(),
            final (self).spec_core_size() == old(self).spec_core_size(),
            final (self).stacks_view().len() == old(self).stacks_view().len(),
            final (self).ids_map() == old(self).ids_map(),
            final (self).class_set() == old(self).class_set(),
            (exists|t: int|
                0 <= t < stack_idxs@.len() && (#[trigger] stack_idxs@[t]) >= old(self).spec_core_size()) ==> r == Err::<(), WorkspaceError>(
                WorkspaceError::IndexOutOfCoreSize,
            ) && *final (self) == *old(self),
            (forall|t: int|
                0 <= t < stack_idxs@.len() ==> (#[trigger] stack_idxs@[t]) < old(self).spec_core_size()) && (exists|t: int|
                0 <= t < stack_idxs@.len() && !old(self).readable(#[trigger] stack_idxs@[t])) ==> r
                == Err::<(), WorkspaceError>(WorkspaceError::StackNotFound) && *final (self)
                == *old(self),
            (forall|t: int|
                0 <= t < stack_idxs@.len() ==> old(self).readable(#[trigger] stack_idxs@[t])) ==> r
                == Ok::<(), WorkspaceError>(()) && (forall|j: int|
                0 <= j < old(self).stacks_view().len() && #[trigger] targeted(stack_idxs@, j)
                    ==> patched_slot(
                    old(self).stacks_view()[j],
                    final (self).stacks_view()[j],
                    patch.atom_map(),
                    patch.class_set(),
                )) && (forall|j: int|
                0 <= j < old(self).stacks_view().len() && !targeted(stack_idxs@, j) ==> (
                #[trigger] final (self).stacks_view()[j]) == old(self).stacks_view()[j]),
    {
        match self.check_targets(stack_idxs) {
            Err(e) => {
                return Err(e);
            },
            Ok(()) => {},
        }
        let n = stack_idxs.len();
        let mut i: usize = 0;
        while i < n
            invariant
                i <= n,
                n == stack_idxs@.len(),
                old(self).wf(),
                self.wf(),
                self.spec_core_size() == old(self).spec_core_size(),
                self.stacks_view().len() == old(self).stacks_view().len(),
                self.ids_map() == old(self).ids_map(),
                self.class_set() == old(self).class_set(),
                forall|t: int|
                    0 <= t < n ==> old(self).readable(#[trigger] stack_idxs@[t]),
                forall|j: int|
                    0 <= j < old(self).stacks_view().len() && #[trigger] targeted(
                        stack_idxs@.take(i as int),
                        j,
                    ) ==> patched_slot(
                        old(self).stacks_view()[j],
                        self.stacks_view()[j],
                        patch.atom_map(),
                        patch.class_set(),
                    ),
                forall|j: int|
                    0 <= j < old(self).stacks_view().len() && !targeted(
                        stack_idxs@.take(i as int),
                        j,
                    ) ==> (#[trigger] self.stacks_view()[j]) == old(self).stacks_view()[j],
            decreases n - i,
        {
            let k = stack_idxs[i];
            proof {
                assert(old(self).readable(stack_idxs@[i as int]));
                if !targeted(stack_idxs@.take(i as int), k as int) {
                    assert(self.stacks_view()[k as int] == old(self).stacks_view()[k as int]);
                }
            }
            let mut cur = match &self.stacks[k] {
                Some(m) => m.duplicate(),
                None => vstd::pervasive::unreached(),
            };
            cur.apply_patch(patch);
            let ghost pre = self.stacks@;
            self.stacks[k] = Some(cur);
            proof {
                lemma_take_succ(stack_idxs@, i as int);
                assert forall|j: int|
                    0 <= j < old(self).stacks_view().len() && #[trigger] targeted(
                        stack_idxs@.take(i as int + 1),
                        j,
                    ) implies patched_slot(
                    old(self).stacks_view()[j],
                    self.stacks_view()[j],
                    patch.atom_map(),
                    patch.class_set(),
                ) by {
                    if j == k as int {
                        if targeted(stack_idxs@.take(i as int), j) {
                            assert(pre[j]->0.atom_map() == old(self).stacks_view()[j]->0.atom_map()
                                .union_prefer_right(patch.atom_map()));
                            assert(old(self).stacks_view()[j]->0.atom_map().union_prefer_right(
                                patch.atom_map(),
                            ).union_prefer_right(patch.atom_map()) =~= old(self).stacks_view()[j]->0.atom_map().union_prefer_right(patch.atom_map()));
                            assert(old(self).stacks_view()[j]->0.class_set().union(
                                patch.class_set(),
                            ).union(patch.class_set()) =~= old(self).stacks_view()[j]->0.class_set()
                                .union(patch.class_set()));
                        }
                    } else {
                        let t = choose|t: int|
                            0 <= t < stack_idxs@.take(i as int + 1).len() && (#[trigger] stack_idxs@.take(i as int + 1)[t]) == j;
                        assert(stack_idxs@.take(i as int)[t] == j);
                        assert(targeted(stack_idxs@.take(i as int), j));
                    }
                }
                assert forall|j: int|
                    0 <= j < old(self).stacks_view().len() && !targeted(
                        stack_idxs@.take(i as int + 1),
                        j,
                    ) implies (#[trigger] self.stacks_view()[j]) == old(self).stacks_view()[j] by {
                    if targeted(stack_idxs@.take(i as int), j) {
                        let t = choose|t: int|
                            0 <= t < stack_idxs@.take(i as int).len() && (#[trigger] stack_idxs@.take(i as int)[t]) == j;
                        assert(stack_idxs@.take(i as int + 1)[t] == j);
                    }
                    assert(j != k as int) by {
                        assert(stack_idxs@.take(i as int + 1)[i as int] == k as int);
                    }
                }
            }
            i = i + 1;
        }
        proof {
            assert(stack_idxs@.take(n as int) =~= stack_idxs@);
        }
        Ok(())
    }

    /// Applies a fill layer to every targeted stack under the overlay
    /// contract: nothing is cleared. Validation and errors are exactly those
    /// of a patch write, and a failure leaves every stack unchanged.
    pub fn overlay_to_stacks(&mut self, stack_idxs: &Vec<usize>, layer: &Layer) -> (r: Result<
        (),
        WorkspaceError,
    >)
        requires
            old(self).wf(),
        ensures
            final (self).wf(),
            final (self).spec_core_size() == old(self).spec_core_size(),
            final (self).stacks_view().len() == old(self).stacks_view().len(),
            final (self).ids_map() == old(self).ids_map(),
            final (self).class_set() == old(self).class_set(),
            (exists|t: int|
                0 <= t < stack_idxs@.len() && (#[trigger] stack_idxs@[t]) >= old(self).spec_core_size()) ==> r == Err::<(), WorkspaceError>(
                WorkspaceError::IndexOutOfCoreSize,
            ) && *final (self) == *old(self),
            (forall|t: int|
                0 <= t < stack_idxs@.len() ==> (#[trigger] stack_idxs@[t]) < old(self).spec_core_size()) && (exists|t: int|
                0 <= t < stack_idxs@.len() && !old(self).readable(#[trigger] stack_idxs@[t])) ==> r
                == Err::<(), WorkspaceError>(WorkspaceError::StackNotFound) && *final (self)
                == *old(self),
            (forall|t: int|
                0 <= t < stack_idxs@.len() ==> old(self).readable(#[trigger] stack_idxs@[t])) ==> r
                == Ok::<(), WorkspaceError>(()) && (forall|j: int|
                0 <= j < old(self).stacks_view().len() && #[trigger] targeted(stack_idxs@, j)
                    ==> filled_slot(
                    old(self).stacks_view()[j],
                    final (self).stacks_view()[j],
                    layer.molecule().atom_map(),
                    layer.molecule().class_set(),
                )) && (forall|j: int|
                0 <= j < old(self).stacks_view().len() && !targeted(stack_idxs@, j) ==> (
                #[trigger] final (self).stacks_view()[j]) == old(self).stacks_view()[j]),
    {
        match self.check_targets(stack_idxs) {
            Err(e) => {
                return Err(e);
            },
            Ok(()) => {},
        }
        let n = stack_idxs.len();
        let mut i: usize = 0;
        while i < n
            invariant
                i <= n,
                n == stack_idxs@.len(),
                old(self).wf(),
                self.wf(),
                self.spec_core_size() == old(self).spec_core_size(),
                self.stacks_view().len() == old(self).stacks_view().len(),
                self.ids_map() == old(self).ids_map(),
                self.class_set() == old(self).class_set(),
                forall|t: int|
                    0 <= t < n ==> old(self).readable(#[trigger] stack_idxs@[t]),
                forall|j: int|
                    0 <= j < old(self).stacks_view().len() && #[trigger] targeted(
                        stack_idxs@.take(i as int),
                        j,
                    ) ==> filled_slot(
                        old(self).stacks_view()[j],
                        self.stacks_view()[j],
                        layer.molecule().atom_map(),
                        layer.molecule().class_set(),
                    ),
                forall|j: int|
                    0 <= j < old(self).stacks_view().len() && !targeted(
                        stack_idxs@.take(i as int),
                        j,
                    ) ==> (#[trigger] self.stacks_view()[j]) == old(self).stacks_view()[j],
            decreases n - i,
        {
            let k = stack_idxs[i];
            proof {
                assert(old(self).readable(stack_idxs@[i as int]));
                if !targeted(stack_idxs@.take(i as int), k as int) {
                    assert(self.stacks_view()[k as int] == old(self).stacks_view()[k as int]);
                }
            }
            let mut cur = match &self.stacks[k] {
                Some(m) => m.duplicate(),
                None => vstd::pervasive::unreached(),
            };
            cur.apply_layer(layer);
            let ghost pre = self.stacks@;
            self.stacks[k] = Some(cur);
            proof {
                lemma_take_succ(stack_idxs@, i as int);
                assert forall|j: int|
                    0 <= j < old(self).stacks_view().len() && #[trigger] targeted(
                        stack_idxs@.take(i as int + 1),
                        j,
                    ) implies filled_slot(
                    old(self).stacks_view()[j],
                    self.stacks_view()[j],
                    layer.molecule().atom_map(),
                    layer.molecule().class_set(),
                ) by {
                    if j == k as int {
                        if targeted(stack_idxs@.take(i as int), j) {
                            assert(fill_atoms(
                                fill_atoms(
                                    old(self).stacks_view()[j]->0.atom_map(),
                                    layer.molecule().atom_map(),
                                ),
                                layer.molecule().atom_map(),
                            ) =~= fill_atoms(
                                old(self).stacks_view()[j]->0.atom_map(),
                                layer.molecule().atom_map(),
                            ));
                            assert(old(self).stacks_view()[j]->0.class_set().union(
                                layer.molecule().class_set(),
                            ).union(layer.molecule().class_set()) =~= old(self).stacks_view()[j]->0.class_set().union(layer.molecule().class_set()));
                        }
                    } else {
                        let t = choose|t: int|
                            0 <= t < stack_idxs@.take(i as int + 1).len() && (#[trigger] stack_idxs@.take(i as int + 1)[t]) == j;
                        assert(stack_idxs@.take(i as int)[t] == j);
                        assert(targeted(stack_idxs@.take(i as int), j));
                    }
                }
                assert forall|j: int|
                    0 <= j < old(self).stacks_view().len() && !targeted(
                        stack_idxs@.take(i as int + 1),
                        j,
                    ) implies (#[trigger] self.stacks_view()[j]) == old(self).stacks_view()[j] by {
                    if targeted(stack_idxs@.take(i as int), j) {
                        let t = choose|t: int|
                            0 <= t < stack_idxs@.take(i as int).len() && (#[trigger] stack_idxs@.take(i as int)[t]) == j;
                        assert(stack_idxs@.take(i as int + 1)[t] == j);
                    }
                    assert(j != k as int) by {
                        assert(stack_idxs@.take(i as int + 1)[i as int] == k as int);
                    }
                }
            }
            i = i + 1;
        }
        proof {
            assert(stack_idxs@.take(n as int) =~= stack_idxs@);
        }
        Ok(())
    }

    /// Adds class tags to every targeted stack by writing a patch that
    /// carries tags and no atoms, under the patch-write validation and
    /// errors: no stack's atoms change.
    pub fn set_stack_class_name(
        &mut self,
        stack_idxs: &Vec<usize>,
        class_names: &Vec<(String, usize)>,
    ) -> (r: Result<(), WorkspaceError>)
        requires
            old(self).wf(),
        ensures
            final (self).wf(),
            final (self).spec_core_size() == old(self).spec_core_size(),
            final (self).stacks_view().len() == old(self).stacks_view().len(),
            final (self).ids_map() == old(self).ids_map(),
            final (self).class_set() == old(self).class_set(),
            (exists|t: int|
                0 <= t < stack_idxs@.len() && (#[trigger] stack_idxs@[t]) >= old(self).spec_core_size()) ==> r == Err::<(), WorkspaceError>(
                WorkspaceError::IndexOutOfCoreSize,
            ) && *final (self) == *old(self),
            (forall|t: int|
                0 <= t < stack_idxs@.len() ==> (#[trigger] stack_idxs@[t]) < old(self).spec_core_size()) && (exists|t: int|
                0 <= t < stack_idxs@.len() && !old(self).readable(#[trigger] stack_idxs@[t])) ==> r
                == Err::<(), WorkspaceError>(WorkspaceError::StackNotFound) && *final (self)
                == *old(self),
            (forall|t: int|
                0 <= t < stack_idxs@.len() ==> old(self).readable(#[trigger] stack_idxs@[t])) ==> r
                == Ok::<(), WorkspaceError>(()) && (forall|j: int|
                0 <= j < old(self).stacks_view().len() && #[trigger] targeted(stack_idxs@, j) ==> (
                final (self).stacks_view()[j]) is Some && final (self).stacks_view()[j]->0.atom_map()
                    == old(self).stacks_view()[j]->0.atom_map() && final (self).stacks_view()[j]->0.class_set() == old(self).stacks_view()[j]->0.class_set().union(
                    pair_set(class_names@),
                )) && (forall|j: int|
                0 <= j < old(self).stacks_view().len() && !targeted(stack_idxs@, j) ==> (
                #[trigger] final (self).stacks_view()[j]) == old(self).stacks_view()[j]),
    {
        let mut patch = Molecule::empty();
        patch.extend_classes(class_names);
        proof {
            assert(patch.class_set() =~= pair_set(class_names@));
        }
        let r = self.write_to_stacks(stack_idxs, &patch);
        proof {
            if forall|t: int|
                0 <= t < stack_idxs@.len() ==> old(self).readable(#[trigger] stack_idxs@[t]) {
                assert forall|j: int|
                    0 <= j < old(self).stacks_view().len() && #[trigger] targeted(
                        stack_idxs@,
                        j,
                    ) implies (final (self).stacks_view()[j]) is Some && final (self).stacks_view()[j]->0.atom_map() == old(self).stacks_view()[j]->0.atom_map()
                    && final (self).stacks_view()[j]->0.class_set() == old(self).stacks_view()[j]->0.class_set().union(pair_set(class_names@)) by {
                    assert(patched_slot(
                        old(self).stacks_view()[j],
                        final (self).stacks_view()[j],
                        patch.atom_map(),
                        patch.class_set(),
                    ));
                    assert(old(self).stacks_view()[j]->0.atom_map().union_prefer_right(
                        patch.atom_map(),
                    ) =~= old(self).stacks_view()[j]->0.atom_map());
                }
            }
        }
        r
    }

    /// The snapshot phase of the transform-group pipeline: for every
    /// requested stack, the class members that actually hold an atom, each
    /// with its atom, resolved through the stack's own tags and the
    /// workspace-level tags. If any requested stack cannot be read the whole
    /// call fails with `StackNotFound` and nothing else is reported: the
    /// pre-check is all-or-nothing.
    pub fn collect_class_atoms(&self, stack_idxs: &Vec<usize>, class_name: &String) -> (r: Result<
        Vec<(usize, Vec<(usize, Atom)>)>,
        WorkspaceError,
    >)
        requires
            self.wf(),
        ensures
            match r {
                Result::Err(e) => e == WorkspaceError::StackNotFound && exists|t: int|
                    0 <= t < stack_idxs@.len() && !self.readable(#[trigger] stack_idxs@[t]),
                Result::Ok(v) => (forall|t: int|
                    0 <= t < stack_idxs@.len() ==> self.readable(#[trigger] stack_idxs@[t]))
                    && v@.len() == stack_idxs@.len() && forall|t: int|
                    0 <= t < v@.len() ==> (#[trigger] v@[t]).0 == stack_idxs@[t] && list_to_map(
                        v@[t].1@,
                    ) == member_map(
                        self.stacks_view()[stack_idxs@[t] as int]->0,
                        self.class_set(),
                        class_name@,
                    ),
            },
    {
        let n = stack_idxs.len();
        let mut out: Vec<(usize, Vec<(usize, Atom)>)> = Vec::new();
        let mut i: usize = 0;
        while i < n
            invariant
                i <= n,
                n == stack_idxs@.len(),
                self.wf(),
                out@.len() == i,
                forall|t: int| 0 <= t < i ==> self.readable(#[trigger] stack_idxs@[t]),
                forall|t: int|
                    0 <= t < i ==> (#[trigger] out@[t]).0 == stack_idxs@[t] && list_to_map(
                        out@[t].1@,
                    ) == member_map(
                        self.stacks_view()[stack_idxs@[t] as int]->0,
                        self.class_set(),
                        class_name@,
                    ),
            decreases n - i,
        {
            let k = stack_idxs[i];
            if k >= self.stacks.len() {
                return Err(WorkspaceError::StackNotFound);
            }
            let mol = match &self.stacks[k] {
                Some(m) => m.duplicate(),
                None => {
                    return Err(WorkspaceError::StackNotFound);
                },
            };
            let ghost mm = member_map(self.stacks_view()[k as int]->0, self.class_set(), class_name@);
            proof {
                assert(member_map(mol, self.class_set(), class_name@) =~= mm);
            }
            let members = mol.class_members(class_name, &self.classes);
            let mut lst: Vec<(usize, Atom)> = Vec::new();
            let mlen = members.len();
            let mut u: usize = 0;
            while u < mlen
                invariant
                    u <= mlen,
                    mlen == members@.len(),
                    mm == member_map(mol, pair_set(self.classes@), class_name@),
                    forall|q: usize|
                        #[trigger] members@.contains(q) <==> (mol.class_set().contains(
                            (class_name@, q),
                        ) || pair_set(self.classes@).contains((class_name@, q))),
                    list_to_map(lst@) == collect_map(mm, members@.take(u as int)),
                decreases mlen - u,
            {
                let k2 = members[u];
                proof {
                    lemma_take_succ(members@, u as int);
                    lemma_collect_map_push(mm, members@.take(u as int), k2);
                    assert(members@.contains(k2));
                }
                match mol.get_atom(k2) {
                    Some(av) => match av {
                        Some(a) => {
                            proof {
                                assert(mm.contains_key(k2));
                                assert(mm[k2] == a);
                                lemma_list_map_push(lst@, (k2, a));
                            }
                            lst.push((k2, a));
                        },
                        None => {
                            proof {
                                assert(!mm.contains_key(k2));
                            }
                        },
                    },
                    None => {
                        proof {
                            assert(!mm.contains_key(k2));
                        }
                    },
                }
                u = u + 1;
            }
            proof {
                assert(members@.take(mlen as int) =~= members@);
                lemma_collect_map_props(mm, members@);
                assert forall|q: usize| mm.contains_key(q) implies members@.contains(q) by {
                    assert(mol.class_set().contains((class_name@, q)) || pair_set(
                        self.classes@,
                    ).contains((class_name@, q)));
                }
                assert(collect_map(mm, members@) =~= mm);
            }
            let ghost preout = out@;
            out.push((k, lst));
            proof {
                assert(forall|t: int| 0 <= t < preout.len() ==> preout[t] == out@[t]);
            }
            i = i + 1;
        }
        Ok(out)
    }

    /// The write-back phase of the transform-group pipeline for one stack:
    /// places the given atoms, which the caller derived from a snapshot of
    /// this workspace, over the stack's current scene value. Whether the
    /// write goes through the patch contract or the overlay contract, the
    /// outcome is the same, because every entry carries an atom; validation
    /// and errors are those of the batch writes.
    pub fn write_stack_atoms(
        &mut self,
        stack_idx: usize,
        atoms: &Vec<(usize, Atom)>,
        overlay: bool,
    ) -> (r: Result<(), WorkspaceError>)
        requires
            old(self).wf(),
        ensures
            final (self).wf(),
            final (self).spec_core_size() == old(self).spec_core_size(),
            final (self).stacks_view().len() == old(self).stacks_view().len(),
            final (self).ids_map() == old(self).ids_map(),
            final (self).class_set() == old(self).class_set(),
            stack_idx >= old(self).spec_core_size() ==> r == Err::<(), WorkspaceError>(
                WorkspaceError::IndexOutOfCoreSize,
            ) && *final (self) == *old(self),
            stack_idx < old(self).spec_core_size() && !old(self).readable(stack_idx) ==> r
                == Err::<(), WorkspaceError>(WorkspaceError::StackNotFound) && *final (self)
                == *old(self),
            old(self).readable(stack_idx) ==> r == Ok::<(), WorkspaceError>(()) && final (
            self).stacks_view()[stack_idx as int] is Some && final (self).stacks_view()[
                stack_idx as int
            ]->0.atom_map() == old(self).stacks_view()[stack_idx as int]->0.atom_map()
                .union_prefer_right(atoms_all_present(atoms@)) && final (self).stacks_view()[
                stack_idx as int
            ]->0.class_set() == old(self).stacks_view()[stack_idx as int]->0.class_set() && (
            forall|j: int|
                0 <= j < old(self).stacks_view().len() && j != stack_idx ==> (#[trigger] final (self).stacks_view()[j]) == old(self).stacks_view()[j]),
    {
        let mut patch = Molecule::empty();
        let n = atoms.len();
        let mut i: usize = 0;
        while i < n
            invariant
                i <= n,
                n == atoms@.len(),
                patch.atom_map() == atoms_all_present(atoms@.take(i as int)),
                patch.class_set() == Set::<(Seq<char>, usize)>::empty(),
            decreases n - i,
        {
            let (k, a) = atoms[i];
            proof {
                lemma_take_succ(atoms@, i as int);
                lemma_all_present_push(atoms@.take(i as int), atoms@[i as int]);
            }
            patch.set_atom(k, Some(a));
            i = i + 1;
        }
        proof {
            assert(atoms@.take(n as int) =~= atoms@);
        }
        let mut one: Vec<usize> = Vec::new();
        one.push(stack_idx);
        proof {
            assert(one@[0] == stack_idx);
            assert forall|j: int| #[trigger] targeted(one@, j) implies j == stack_idx by {
                let t = choose|t: int| 0 <= t < one@.len() && one@[t] == j;
            }
            assert(targeted(one@, stack_idx as int));
        }
        let ghost gpatch = patch;
        let r = if overlay {
            let layer = Layer::Fill(patch);
            let r = self.overlay_to_stacks(&one, &layer);
            proof {
                if old(self).readable(stack_idx) {
                    assert(filled_slot(
                        old(self).stacks_view()[stack_idx as int],
                        final (self).stacks_view()[stack_idx as int],
                        gpatch.atom_map(),
                        gpatch.class_set(),
                    ));
                    lemma_all_present_some(atoms@);
                    assert(fill_atoms(
                        old(self).stacks_view()[stack_idx as int]->0.atom_map(),
                        gpatch.atom_map(),
                    ) =~= old(self).stacks_view()[stack_idx as int]->0.atom_map()
                        .union_prefer_right(gpatch.atom_map()));
                }
            }
            r
        } else {
            let r = self.write_to_stacks(&one, &patch);
            proof {
                if old(self).readable(stack_idx) {
                    assert(patched_slot(
                        old(self).stacks_view()[stack_idx as int],
                        final (self).stacks_view()[stack_idx as int],
                        gpatch.atom_map(),
                        gpatch.class_set(),
                    ));
                }
            }
            r
        };
        proof {
            if old(self).readable(stack_idx) {
                assert(old(self).stacks_view()[stack_idx as int]->0.class_set().union(
                    Set::<(Seq<char>, usize)>::empty(),
                ) =~= old(self).stacks_view()[stack_idx as int]->0.class_set());
            }
        }
        r
    }
}

/// Whether a list of id-names holds a given name.
pub open spec fn names_has(seen: Seq<String>, n: Seq<char>) -> bool {
    exists|j: int| 0 <= j < seen.len() && (#[trigger] seen[j])@ == n
}

/// Whether some entry of a list of strings equals a name.
fn names_contain(seen: &Vec<String>, name: &String) -> (r: bool)
    ensures
        r == names_has(seen@, name@),
{
    let n = seen.len();
    let mut i: usize = 0;
    while i < n
        invariant
            i <= n,
            n == seen@.len(),
            forall|j: int| 0 <= j < i ==> (#[trigger] seen@[j])@ != name@,
        decreases n - i,
    {
        if seen[i] == *name {
            return true;
        }
        i = i + 1;
    }
    proof {
        if names_has(seen@, name@) {
            let j = choose|j: int| 0 <= j < seen@.len() && (#[trigger] seen@[j])@ == name@;
            assert(false);
        }
    }
    false
}

/// Whether a list of class tags holds a given tag.
fn pairs_contain(pairs: &Vec<(String, usize)>, name: &String, idx: usize) -> (r: bool)
    ensures
        r == pair_set(pairs@).contains((name@, idx)),
{
    let n = pairs.len();
    let mut i: usize = 0;
    while i < n
        invariant
            i <= n,
            n == pairs@.len(),
            forall|j: int|
                0 <= j < i ==> !((#[trigger] pairs@[j]).0@ == name@ && pairs@[j].1 == idx),
        decreases n - i,
    {
        if pairs[i].0 == *name && pairs[i].1 == idx {
            return true;
        }
        i = i + 1;
    }
    false
}

} // verus!
