use vstd::prelude::*;
use crate::geom::Pos;

verus! {

/// One addressable atom of a scene value: an element code and a position.
/// Everything a transform leaves alone is carried here unchanged.
#[derive(Clone, Copy, PartialEq, Eq, Structural, Debug)]
pub struct Atom {
    pub element: usize,
    pub position: Pos,
}

/// The sparse atom table described by a list of entries, later entries for
/// the same index superseding earlier ones. An entry maps an atom index
/// either to an atom or to an explicit "no atom here" marker; indices
/// without an entry are absent altogether.
pub open spec fn atoms_as_map(s: Seq<(usize, Option<Atom>)>) -> Map<usize, Option<Atom>>
    decreases s.len(),
{
    if s.len() == 0 {
        Map::empty()
    } else {
        atoms_as_map(s.drop_last()).insert(s.last().0, s.last().1)
    }
}

/// The atom table carried by a list of atoms that are all present.
pub open spec fn atoms_all_present(s: Seq<(usize, Atom)>) -> Map<usize, Option<Atom>>
    decreases s.len(),
{
    if s.len() == 0 {
        Map::empty()
    } else {
        atoms_all_present(s.drop_last()).insert(s.last().0, Some(s.last().1))
    }
}

/// The atoms named by a list of (atom index, atom) pairs, later entries for
/// the same index superseding earlier ones.
pub open spec fn list_to_map(s: Seq<(usize, Atom)>) -> Map<usize, Atom>
    decreases s.len(),
{
    if s.len() == 0 {
        Map::empty()
    } else {
        list_to_map(s.drop_last()).insert(s.last().0, s.last().1)
    }
}

/// The class tags in a list of (class name, atom index) pairs, as a set.
pub open spec fn pair_set(s: Seq<(String, usize)>) -> Set<(Seq<char>, usize)> {
    Set::new(
        |p: (Seq<char>, usize)|
            exists|i: int| 0 <= i < s.len() && (#[trigger] s[i]).0@ == p.0 && s[i].1 == p.1,
    )
}

/// A scene value: a sparse table of atoms plus a list of class tags, each
/// tag associating a class name with an atom index.
pub struct Molecule {
    atoms: Vec<(usize, Option<Atom>)>,
    classes: Vec<(String, usize)>,
}

/// A merge-semantics update: `Fill` applies its atoms one by one without
/// disturbing indices absent from it, and without clearing anything.
pub enum Layer {
    Fill(Molecule),
}

impl Layer {
    /// The scene value carried by this layer.
    pub open spec fn molecule(self) -> Molecule {
        match self {
            Layer::Fill(m) => m,
        }
    }
}

/// What applying a fill layer leaves at each index: the layer's atom where
/// the layer holds one, the base's entry everywhere else.
pub open spec fn fill_atoms(
    base: Map<usize, Option<Atom>>,
    layer: Map<usize, Option<Atom>>,
) -> Map<usize, Option<Atom>> {
    Map::new(
        |k: usize| base.contains_key(k) || (layer.contains_key(k) && layer[k] is Some),
        |k: usize|
            if layer.contains_key(k) && layer[k] is Some {
                layer[k]
            } else {
                base[k]
            },
    )
}

/// An overlay never clears: an index the layer does not fill keeps exactly
/// the base's entry, while a patch replaces at every index it mentions,
/// explicitly empty ones included.
pub proof fn lemma_overlay_vs_patch(
    base: Map<usize, Option<Atom>>,
    upd: Map<usize, Option<Atom>>,
    k: usize,
)
    ensures
        base.contains_key(k) && !(upd.contains_key(k) && upd[k] is Some) ==> fill_atoms(
            base,
            upd,
        ).contains_key(k) && fill_atoms(base, upd)[k] == base[k],
        upd.contains_key(k) && upd[k] is Some ==> fill_atoms(base, upd).contains_key(k)
            && fill_atoms(base, upd)[k] == upd[k],
        upd.contains_key(k) ==> base.union_prefer_right(upd).contains_key(k)
            && base.union_prefer_right(upd)[k] == upd[k],
{
}

/// Appending one entry to an atom list inserts it into the table.
pub proof fn lemma_atoms_map_push(s: Seq<(usize, Option<Atom>)>, e: (usize, Option<Atom>))
    ensures
        atoms_as_map(s.push(e)) == atoms_as_map(s).insert(e.0, e.1),
{
    assert(s.push(e).drop_last() =~= s);
    assert(s.push(e).last() == e);
}

/// Appending one atom to an all-present list inserts it into the table.
pub proof fn lemma_all_present_push(s: Seq<(usize, Atom)>, e: (usize, Atom))
    ensures
        atoms_all_present(s.push(e)) == atoms_all_present(s).insert(e.0, Some(e.1)),
{
    assert(s.push(e).drop_last() =~= s);
    assert(s.push(e).last() == e);
}

/// Every entry of an all-present table holds an atom.
pub proof fn lemma_all_present_some(s: Seq<(usize, Atom)>)
    ensures
        forall|k: usize|
            #[trigger] atoms_all_present(s).contains_key(k) ==> atoms_all_present(s)[k] is Some,
    decreases s.len(),
{
    if s.len() > 0 {
        lemma_all_present_some(s.drop_last());
    }
}

/// Appending one pair to an atom list inserts it into the named-atom map.
pub proof fn lemma_list_map_push(s: Seq<(usize, Atom)>, e: (usize, Atom))
    ensures
        list_to_map(s.push(e)) == list_to_map(s).insert(e.0, e.1),
{
    assert(s.push(e).drop_last() =~= s);
    assert(s.push(e).last() == e);
}

/// A key the table holds is named by some entry of the list.
pub proof fn lemma_atoms_map_contains_exists(s: Seq<(usize, Option<Atom>)>, k: usize)
    requires
        atoms_as_map(s).contains_key(k),
    ensures
        exists|j: int| 0 <= j < s.len() && (#[trigger] s[j]).0 == k,
    decreases s.len(),
{
    if s.last().0 == k {
        assert(s[s.len() - 1].0 == k);
    } else {
        lemma_atoms_map_contains_exists(s.drop_last(), k);
        let j = choose|j: int| 0 <= j < s.drop_last().len() && (#[trigger] s.drop_last()[j]).0 == k;
        assert(s[j].0 == k);
    }
}

/// A key that no entry of the list names is absent from the table.
pub proof fn lemma_atoms_map_key_absent(s: Seq<(usize, Option<Atom>)>, k: usize)
    requires
        forall|j: int| 0 <= j < s.len() ==> (#[trigger] s[j]).0 != k,
    ensures
        !atoms_as_map(s).contains_key(k),
    decreases s.len(),
{
    if s.len() > 0 {
        assert(forall|j: int|
            0 <= j < s.drop_last().len() ==> (#[trigger] s.drop_last()[j]).0 == s[j].0);
        lemma_atoms_map_key_absent(s.drop_last(), k);
    }
}

/// A key some entry names is present in the table.
pub proof fn lemma_atoms_map_key_present(s: Seq<(usize, Option<Atom>)>, j: int)
    requires
        0 <= j < s.len(),
    ensures
        atoms_as_map(s).contains_key(s[j].0),
    decreases s.len(),
{
    if j < s.len() - 1 {
        assert(s.drop_last()[j] == s[j]);
        lemma_atoms_map_key_present(s.drop_last(), j);
    }
}

/// The table's entry for a key comes from the last entry that names it.
pub proof fn lemma_atoms_map_last_occurrence(s: Seq<(usize, Option<Atom>)>, j: int)
    requires
        0 <= j < s.len(),
        forall|t: int| j < t < s.len() ==> (#[trigger] s[t]).0 != s[j].0,
    ensures
        atoms_as_map(s).contains_key(s[j].0),
        atoms_as_map(s)[s[j].0] == s[j].1,
    decreases s.len(),
{
    if j == s.len() - 1 {
    } else {
        assert(s.drop_last()[j] == s[j]);
        assert(forall|t: int|
            j < t < s.drop_last().len() ==> (#[trigger] s.drop_last()[t]).0 == s[t].0);
        lemma_atoms_map_last_occurrence(s.drop_last(), j);
    }
}

/// Taking one more element appends that element.
pub proof fn lemma_take_succ<T>(s: Seq<T>, i: int)
    requires
        0 <= i < s.len(),
    ensures
        s.take(i + 1) == s.take(i).push(s[i]),
{
    assert(s.take(i + 1) =~= s.take(i).push(s[i]));
}

/// Appending a tag pair to a list adds it to the tag set.
pub proof fn lemma_pair_set_push(s: Seq<(String, usize)>, p: (String, usize))
    ensures
        pair_set(s.push(p)) == pair_set(s).insert((p.0@, p.1)),
{
    let t = s.push(p);
    assert forall|q: (Seq<char>, usize)|
        pair_set(t).contains(q) <==> pair_set(s).insert((p.0@, p.1)).contains(q) by {
        if pair_set(t).contains(q) {
            let i = choose|i: int| 0 <= i < t.len() && (#[trigger] t[i]).0@ == q.0 && t[i].1 == q.1;
            if i < s.len() {
                assert(s[i] == t[i]);
                assert(pair_set(s).contains(q));
            } else {
                assert(t[i] == p);
            }
        }
        if pair_set(s).insert((p.0@, p.1)).contains(q) {
            if pair_set(s).contains(q) {
                let i = choose|i: int|
                    0 <= i < s.len() && (#[trigger] s[i]).0@ == q.0 && s[i].1 == q.1;
                assert(t[i] == s[i]);
                assert(pair_set(t).contains(q));
            } else {
                assert(t[s.len() as int] == p);
                assert(pair_set(t).contains(q));
            }
        }
    }
    assert(pair_set(t) =~= pair_set(s).insert((p.0@, p.1)));
}

impl Molecule {
    /// The sparse atom table of this scene value.
    pub closed spec fn atom_map(self) -> Map<usize, Option<Atom>> {
        atoms_as_map(self.atoms@)
    }

    /// The class tags of this scene value.
    pub closed spec fn class_set(self) -> Set<(Seq<char>, usize)> {
        pair_set(self.classes@)
    }

    /// A scene value with no atoms and no class tags.
    pub fn empty() -> (m: Molecule)
        ensures
            m.atom_map() == Map::<usize, Option<Atom>>::empty(),
            m.class_set() == Set::<(Seq<char>, usize)>::empty(),
    {
        let m = Molecule { atoms: Vec::new(), classes: Vec::new() };
        proof {
            assert(m.class_set() =~= Set::<(Seq<char>, usize)>::empty());
        }
        m
    }

    /// The entry at an atom index: an atom, an explicit "no atom here"
    /// marker, or nothing at all when the index is absent.
    pub fn get_atom(&self, atom_idx: usize) -> (r: Option<Option<Atom>>)
        ensures
            self.atom_map().contains_key(atom_idx) ==> r == Some(self.atom_map()[atom_idx]),
            !self.atom_map().contains_key(atom_idx) ==> r is None,
    {
        let mut i: usize = self.atoms.len();
        while i > 0
            invariant
                i <= self.atoms@.len(),
                forall|t: int|
                    i <= t < self.atoms@.len() ==> (#[trigger] self.atoms@[t]).0 != atom_idx,
            decreases i,
        {
            i = i - 1;
            let (k, v) = self.atoms[i];
            if k == atom_idx {
                proof {
                    lemma_atoms_map_last_occurrence(self.atoms@, i as int);
                }
                return Some(v);
            }
        }
        proof {
            lemma_atoms_map_key_absent(self.atoms@, atom_idx);
        }
        None
    }

    /// Records the entry for an atom index, superseding any earlier entry:
    /// `Some(atom)` places an atom, `None` marks the index explicitly empty.
    pub fn set_atom(&mut self, atom_idx: usize, value: Option<Atom>)
        ensures
            final (self).atom_map() == old(self).atom_map().insert(atom_idx, value),
            final (self).class_set() == old(self).class_set(),
    {
        proof {
            lemma_atoms_map_push(self.atoms@, (atom_idx, value));
        }
        self.atoms.push((atom_idx, value));
    }

    /// Adds class tags; a tag already present stays, so the operation is
    /// idempotent.
    pub fn extend_classes(&mut self, pairs: &Vec<(String, usize)>)
        ensures
            final (self).atom_map() == old(self).atom_map(),
            final (self).class_set() == old(self).class_set().union(pair_set(pairs@)),
    {
        let n = pairs.len();
        let mut i: usize = 0;
        while i < n
            invariant
                i <= n,
                n == pairs@.len(),
                self.atoms@ == old(self).atoms@,
                self.class_set() == old(self).class_set().union(pair_set(pairs@.take(i as int))),
            decreases n - i,
        {
            let ghost pre = self.classes@;
            let name = pairs[i].0.clone();
            let idx = pairs[i].1;
            proof {
                lemma_take_succ(pairs@, i as int);
                lemma_pair_set_push(pairs@.take(i as int), pairs@[i as int]);
            }
            if !self.has_class_pair(&name, idx) {
                proof {
                    lemma_pair_set_push(pre, (name, idx));
                    assert(old(self).class_set().union(pair_set(pairs@.take(i as int))).insert(
                        (pairs@[i as int].0@, pairs@[i as int].1),
                    ) =~= old(self).class_set().union(pair_set(pairs@.take(i as int + 1))));
                }
                self.classes.push((name, idx));
            } else {
                proof {
                    assert(old(self).class_set().union(pair_set(pairs@.take(i as int))) =~= old(
                        self,
                    ).class_set().union(pair_set(pairs@.take(i as int + 1))));
                }
            }
            i = i + 1;
        }
        proof {
            assert(pairs@.take(n as int) =~= pairs@);
        }
    }

    /// Whether a class tag is present.
    pub fn has_class_pair(&self, class_name: &String, atom_idx: usize) -> (r: bool)
        ensures
            r == self.class_set().contains((class_name@, atom_idx)),
    {
        let n = self.classes.len();
        let mut i: usize = 0;
        while i < n
            invariant
                i <= n,
                n == self.classes@.len(),
                forall|j: int|
                    0 <= j < i ==> !((#[trigger] self.classes@[j]).0@ == class_name@
                        && self.classes@[j].1 == atom_idx),
            decreases n - i,
        {
            if self.classes[i].0 == *class_name && self.classes[i].1 == atom_idx {
                return true;
            }
            i = i + 1;
        }
        false
    }

    /// An exact copy of this scene value.
    pub fn duplicate(&self) -> (r: Molecule)
        ensures
            r.atom_map() == self.atom_map(),
            r.class_set() == self.class_set(),
    {
        let mut atoms: Vec<(usize, Option<Atom>)> = Vec::new();
        let mut i: usize = 0;
        let n = self.atoms.len();
        while i < n
            invariant
                i <= n,
                n == self.atoms@.len(),
                atoms@ == self.atoms@.take(i as int),
            decreases n - i,
        {
            atoms.push(self.atoms[i]);
            proof {
                lemma_take_succ(self.atoms@, i as int);
            }
            i = i + 1;
        }
        let mut classes: Vec<(String, usize)> = Vec::new();
        let m = self.classes.len();
        let mut j: usize = 0;
        while j < m
            invariant
                j <= m,
                m == self.classes@.len(),
                classes@ == self.classes@.take(j as int),
            decreases m - j,
        {
            classes.push((self.classes[j].0.clone(), self.classes[j].1));
            proof {
                lemma_take_succ(self.classes@, j as int);
            }
            j = j + 1;
        }
        proof {
            assert(self.atoms@.take(n as int) =~= self.atoms@);
            assert(self.classes@.take(m as int) =~= self.classes@);
        }
        Molecule { atoms, classes }
    }

    /// The class tags of this scene value, as a list.
    pub fn class_pairs(&self) -> (r: Vec<(String, usize)>)
        ensures
            pair_set(r@) == self.class_set(),
    {
        let mut classes: Vec<(String, usize)> = Vec::new();
        let m = self.classes.len();
        let mut j: usize = 0;
        while j < m
            invariant
                j <= m,
                m == self.classes@.len(),
                classes@ == self.classes@.take(j as int),
            decreases m - j,
        {
            classes.push((self.classes[j].0.clone(), self.classes[j].1));
            proof {
                lemma_take_succ(self.classes@, j as int);
            }
            j = j + 1;
        }
        proof {
            assert(self.classes@.take(m as int) =~= self.classes@);
        }
        classes
    }

    /// The atom table as a list with one entry per index, in no promised
    /// order: the collapsed form of the table.
    pub fn atom_entries(&self) -> (r: Vec<(usize, Option<Atom>)>)
        ensures
            atoms_as_map(r@) == self.atom_map(),
            forall|a: int, b: int|
                0 <= a < b < r@.len() ==> (#[trigger] r@[a]).0 != (#[trigger] r@[b]).0,
    {
        let mut out: Vec<(usize, Option<Atom>)> = Vec::new();
        let mut i: usize = self.atoms.len();
        while i > 0
            invariant
                i <= self.atoms@.len(),
                forall|a: int, b: int|
                    0 <= a < b < out@.len() ==> (#[trigger] out@[a]).0 != (#[trigger] out@[b]).0,
                forall|j: int|
                    0 <= j < out@.len() ==> atoms_as_map(self.atoms@).contains_key(
                        (#[trigger] out@[j]).0,
                    ) && atoms_as_map(self.atoms@)[out@[j].0] == out@[j].1,
                forall|t: int|
                    i <= t < self.atoms@.len() ==> exists|j: int|
                        0 <= j < out@.len() && (#[trigger] out@[j]).0 == (
                        #[trigger] self.atoms@[t]).0,
            decreases i,
        {
            i = i - 1;
            let (k, v) = self.atoms[i];
            if !entries_contain_key(&out, k) {
                proof {
                    assert forall|t: int|
                        (i as int) < t < self.atoms@.len() implies (#[trigger] self.atoms@[t]).0
                        != k by {
                        if self.atoms@[t].0 == k {
                            let j = choose|j: int|
                                0 <= j < out@.len() && (#[trigger] out@[j]).0 == self.atoms@[t].0;
                            assert(out@[j].0 == k);
                        }
                    }
                    lemma_atoms_map_last_occurrence(self.atoms@, i as int);
                }
                let ghost pre = out@;
                out.push((k, v));
                proof {
                    assert forall|t: int|
                        i <= t < self.atoms@.len() implies exists|j: int|
                        0 <= j < out@.len() && (#[trigger] out@[j]).0 == (
                        #[trigger] self.atoms@[t]).0 by {
                        if self.atoms@[t].0 == k {
                            assert(out@[pre.len() as int].0 == self.atoms@[t].0);
                        } else {
                            let j = choose|j: int|
                                0 <= j < pre.len() && (#[trigger] pre[j]).0 == self.atoms@[t].0;
                            assert(out@[j].0 == self.atoms@[t].0);
                        }
                    }
                }
            }
        }
        proof {
            assert forall|k: usize|
                atoms_as_map(out@).contains_key(k) <==> atoms_as_map(
                    self.atoms@,
                ).contains_key(k) by {
                if atoms_as_map(out@).contains_key(k) {
                    lemma_atoms_map_contains_exists(out@, k);
                    let j = choose|j: int| 0 <= j < out@.len() && (#[trigger] out@[j]).0 == k;
                    assert(atoms_as_map(self.atoms@).contains_key(out@[j].0));
                }
                if atoms_as_map(self.atoms@).contains_key(k) {
                    lemma_atoms_map_contains_exists(self.atoms@, k);
                    let t = choose|t: int|
                        0 <= t < self.atoms@.len() && (#[trigger] self.atoms@[t]).0 == k;
                    let j = choose|j: int|
                        0 <= j < out@.len() && (#[trigger] out@[j]).0 == self.atoms@[t].0;
                    lemma_atoms_map_key_present(out@, j);
                }
            }
            assert forall|k: usize|
                atoms_as_map(out@).contains_key(k) implies atoms_as_map(out@)[k] == atoms_as_map(
                self.atoms@,
            )[k] by {
                lemma_atoms_map_contains_exists(out@, k);
                let j = choose|j: int| 0 <= j < out@.len() && (#[trigger] out@[j]).0 == k;
                assert forall|t: int|
                    j < t < out@.len() implies (#[trigger] out@[t]).0 != out@[j].0 by {}
                lemma_atoms_map_last_occurrence(out@, j);
            }
            assert(atoms_as_map(out@) =~= atoms_as_map(self.atoms@));
        }
        out
    }

    /// Applies a patch: at every index the patch mentions, the patch's entry
    /// replaces this value's entry, an explicitly empty entry clearing the
    /// index; indices the patch does not mention are untouched. The patch's
    /// class tags are added.
    pub fn apply_patch(&mut self, patch: &Molecule)
        ensures
            final (self).atom_map() == old(self).atom_map().union_prefer_right(patch.atom_map()),
            final (self).class_set() == old(self).class_set().union(patch.class_set()),
    {
        let n = patch.atoms.len();
        let mut i: usize = 0;
        while i < n
            invariant
                i <= n,
                n == patch.atoms@.len(),
                self.classes@ == old(self).classes@,
                self.atom_map() == old(self).atom_map().union_prefer_right(
                    atoms_as_map(patch.atoms@.take(i as int)),
                ),
            decreases n - i,
        {
            let (k, v) = patch.atoms[i];
            proof {
                lemma_atoms_map_push(self.atoms@, (k, v));
                lemma_take_succ(patch.atoms@, i as int);
                lemma_atoms_map_push(patch.atoms@.take(i as int), patch.atoms@[i as int]);
                assert(old(self).atom_map().union_prefer_right(
                    atoms_as_map(patch.atoms@.take(i as int)),
                ).insert(k, v) =~= old(self).atom_map().union_prefer_right(
                    atoms_as_map(patch.atoms@.take(i as int + 1)),
                ));
            }
            self.atoms.push((k, v));
            i = i + 1;
        }
        proof {
            assert(patch.atoms@.take(n as int) =~= patch.atoms@);
        }
        self.extend_classes(&patch.classes);
    }

    /// Applies a fill layer: every atom the layer holds is placed, indices
    /// the layer leaves out or marks empty are untouched, so nothing is ever
    /// cleared. The layer's class tags are added.
    pub fn apply_layer(&mut self, layer: &Layer)
        ensures
            final (self).atom_map() == fill_atoms(
                old(self).atom_map(),
                layer.molecule().atom_map(),
            ),
            final (self).class_set() == old(self).class_set().union(
                layer.molecule().class_set(),
            ),
    {
        let mol = match layer {
            Layer::Fill(m) => m,
        };
        let entries = mol.atom_entries();
        let n = entries.len();
        let mut i: usize = 0;
        while i < n
            invariant
                i <= n,
                n == entries@.len(),
                atoms_as_map(entries@) == mol.atom_map(),
                forall|a: int, b: int|
                    0 <= a < b < entries@.len() ==> (#[trigger] entries@[a]).0 != (
                    #[trigger] entries@[b]).0,
                self.classes@ == old(self).classes@,
                self.atom_map() == fill_atoms(
                    old(self).atom_map(),
                    atoms_as_map(entries@.take(i as int)),
                ),
            decreases n - i,
        {
            let (k, v) = entries[i];
            proof {
                assert(forall|j: int|
                    0 <= j < i ==> (#[trigger] entries@.take(i as int)[j]).0 == entries@[j].0);
                lemma_atoms_map_key_absent(entries@.take(i as int), k);
                lemma_take_succ(entries@, i as int);
                lemma_atoms_map_push(entries@.take(i as int), entries@[i as int]);
            }
            match v {
                Some(a) => {
                    proof {
                        lemma_atoms_map_push(self.atoms@, (k, v));
                        assert(fill_atoms(
                            old(self).atom_map(),
                            atoms_as_map(entries@.take(i as int)),
                        ).insert(k, v) =~= fill_atoms(
                            old(self).atom_map(),
                            atoms_as_map(entries@.take(i as int + 1)),
                        ));
                    }
                    self.atoms.push((k, v));
                },
                None => {
                    proof {
                        assert(fill_atoms(
                            old(self).atom_map(),
                            atoms_as_map(entries@.take(i as int)),
                        ) =~= fill_atoms(
                            old(self).atom_map(),
                            atoms_as_map(entries@.take(i as int + 1)),
                        ));
                    }
                },
            }
            i = i + 1;
        }
        proof {
            assert(entries@.take(n as int) =~= entries@);
        }
        self.extend_classes(&mol.classes);
    }

    /// The atom indices of this scene value's members of a class, resolved
    /// through both this value's own tags and the workspace-level tags.
    pub fn class_members(&self, class_name: &String, workspace_classes: &Vec<(String, usize)>)
        -> (r: Vec<usize>)
        ensures
            forall|k: usize|
                #[trigger] r@.contains(k) <==> (self.class_set().contains((class_name@, k))
                    || pair_set(workspace_classes@).contains((class_name@, k))),
    {
        let mut r: Vec<usize> = Vec::new();
        let n = self.classes.len();
        let mut i: usize = 0;
        while i < n
            invariant
                i <= n,
                n == self.classes@.len(),
                forall|t: int|
                    0 <= t < r@.len() ==> self.class_set().contains(
                        (class_name@, (#[trigger] r@[t])),
                    ),
                forall|j: int|
                    0 <= j < i && (#[trigger] self.classes@[j]).0@ == class_name@ ==> r@.contains(
                        self.classes@[j].1,
                    ),
            decreases n - i,
        {
            if self.classes[i].0 == *class_name {
                let ghost pre = r@;
                r.push(self.classes[i].1);
                proof {
                    assert(r@[pre.len() as int] == self.classes@[i as int].1);
                    assert(forall|t: int| 0 <= t < pre.len() ==> pre[t] == r@[t]);
                    assert forall|j: int|
                        0 <= j <= i && (#[trigger] self.classes@[j]).0@
                            == class_name@ implies r@.contains(self.classes@[j].1) by {
                        if j < i {
                            let t = choose|t: int| 0 <= t < pre.len() && pre[t] == self.classes@[j].1;
                            assert(r@[t] == self.classes@[j].1);
                        }
                    }
                }
            }
            i = i + 1;
        }
        let m = workspace_classes.len();
        let mut j: usize = 0;
        while j < m
            invariant
                j <= m,
                m == workspace_classes@.len(),
                forall|t: int|
                    0 <= t < r@.len() ==> (self.class_set().contains(
                        (class_name@, (#[trigger] r@[t])),
                    ) || pair_set(workspace_classes@).contains((class_name@, r@[t]))),
                forall|u: int|
                    0 <= u < self.classes@.len() && (#[trigger] self.classes@[u]).0@
                        == class_name@ ==> r@.contains(self.classes@[u].1),
                forall|u: int|
                    0 <= u < j && (#[trigger] workspace_classes@[u]).0@ == class_name@
                        ==> r@.contains(workspace_classes@[u].1),
            decreases m - j,
        {
            if workspace_classes[j].0 == *class_name {
                let ghost pre = r@;
                r.push(workspace_classes[j].1);
                proof {
                    assert(r@[pre.len() as int] == workspace_classes@[j as int].1);
                    assert(forall|t: int| 0 <= t < pre.len() ==> pre[t] == r@[t]);
                    assert forall|u: int|
                        0 <= u < self.classes@.len() && (#[trigger] self.classes@[u]).0@
                            == class_name@ implies r@.contains(self.classes@[u].1) by {
                        let t = choose|t: int| 0 <= t < pre.len() && pre[t] == self.classes@[u].1;
                        assert(r@[t] == self.classes@[u].1);
                    }
                    assert forall|u: int|
                        0 <= u <= j && (#[trigger] workspace_classes@[u]).0@
                            == class_name@ implies r@.contains(workspace_classes@[u].1) by {
                        if u < j {
                            let t = choose|t: int|
                                0 <= t < pre.len() && pre[t] == workspace_classes@[u].1;
                            assert(r@[t] == workspace_classes@[u].1);
                        }
                    }
                }
            }
            j = j + 1;
        }
        proof {
            assert forall|k: usize|
                #[trigger] r@.contains(k) <==> (self.class_set().contains((class_name@, k))
                    || pair_set(workspace_classes@).contains((class_name@, k))) by {
                if r@.contains(k) {
                    let t = choose|t: int| 0 <= t < r@.len() && r@[t] == k;
                    assert(self.class_set().contains((class_name@, r@[t]))
                        || pair_set(workspace_classes@).contains((class_name@, r@[t])));
                }
                if self.class_set().contains((class_name@, k)) {
                    let u = choose|u: int|
                        0 <= u < self.classes@.len() && (#[trigger] self.classes@[u]).0@
                            == class_name@ && self.classes@[u].1 == k;
                    assert(r@.contains(self.classes@[u].1));
                }
                if pair_set(workspace_classes@).contains((class_name@, k)) {
                    let u = choose|u: int|
                        0 <= u < workspace_classes@.len() && (
                        #[trigger] workspace_classes@[u]).0@ == class_name@
                            && workspace_classes@[u].1 == k;
                    assert(r@.contains(workspace_classes@[u].1));
                }
            }
        }
        r
    }
}

/// Whether some entry of a list names a key.
fn entries_contain_key(entries: &Vec<(usize, Option<Atom>)>, k: usize) -> (r: bool)
    ensures
        r == exists|j: int| 0 <= j < entries@.len() && (#[trigger] entries@[j]).0 == k,
{
    let n = entries.len();
    let mut i: usize = 0;
    while i < n
        invariant
            i <= n,
            n == entries@.len(),
            forall|j: int| 0 <= j < i ==> (#[trigger] entries@[j]).0 != k,
        decreases n - i,
    {
        if entries[i].0 == k {
            return true;
        }
        i = i + 1;
    }
    false
}

} // verus!
