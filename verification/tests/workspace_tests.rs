use lme_server::errors::WorkspaceError;
use lme_server::geom::{Pos, Transform};
use lme_server::molecule::{Atom, Layer, Molecule};
use lme_server::registry::Registry;
use lme_server::workspace::Workspace;

fn pos(x: f64, y: f64, z: f64) -> Pos {
    Pos { x: x.to_bits(), y: y.to_bits(), z: z.to_bits() }
}

fn atom(element: usize, x: f64, y: f64, z: f64) -> Atom {
    Atom { element, position: pos(x, y, z) }
}

fn transform_of(m: nalgebra::Matrix4<f64>) -> Transform {
    let mut entries = [0u64; 16];
    for r in 0..4 {
        for c in 0..4 {
            entries[r * 4 + c] = m[(r, c)].to_bits();
        }
    }
    Transform { entries }
}

fn translation(x: f64, y: f64, z: f64) -> Transform {
    transform_of(nalgebra::Translation3::new(x, y, z).to_homogeneous())
}

fn identity() -> Transform {
    transform_of(nalgebra::Matrix4::identity())
}

/// The floating-point half of the pipeline: what a serving layer runs
/// between the library's snapshot phase and its write-back phase.
fn moved_position(t: &Transform, p: &Pos) -> Pos {
    let mut vals: Vec<f64> = Vec::with_capacity(16);
    for b in t.entries.iter() {
        vals.push(f64::from_bits(*b));
    }
    let m = nalgebra::Matrix4::from_row_slice(&vals);
    let tr = nalgebra::Transform3::from_matrix_unchecked(m);
    let q = tr.transform_point(&nalgebra::Point3::new(
        f64::from_bits(p.x),
        f64::from_bits(p.y),
        f64::from_bits(p.z),
    ));
    Pos { x: q.x.to_bits(), y: q.y.to_bits(), z: q.z.to_bits() }
}

/// The whole transform-group operation: snapshot, transform, write back.
fn transform_group(
    ws: &mut Workspace,
    stack_idxs: Vec<usize>,
    class_name: &str,
    t: &Transform,
    overlay: bool,
) -> Result<(), WorkspaceError> {
    let collected = ws.collect_class_atoms(&stack_idxs, &class_name.to_string())?;
    for (stack_idx, atoms) in collected {
        let mut moved: Vec<(usize, Atom)> = Vec::new();
        for (idx, a) in atoms.iter() {
            moved.push((
                *idx,
                Atom { element: a.element, position: moved_position(t, &a.position) },
            ));
        }
        ws.write_stack_atoms(stack_idx, &moved, overlay)?;
    }
    Ok(())
}

fn atom_at(ws: &Workspace, stack_idx: usize, atom_idx: usize) -> Option<Option<Atom>> {
    ws.read_stack(stack_idx).unwrap().get_atom(atom_idx)
}

#[test]
fn scenario_write_then_read_then_remove() {
    let mut reg = Registry::new();
    assert!(reg.create("w1".to_string(), 4).is_ok());
    let j = reg.resolve(&"w1".to_string()).unwrap();
    let ws = reg.workspace_at_mut(j);

    let empty = ws.read_stack(0).unwrap();
    assert_eq!(empty.get_atom(5), None);

    let mut patch = Molecule::empty();
    patch.set_atom(5, Some(atom(6, 1.0, 2.0, 3.0)));
    assert!(ws.write_to_stacks(&vec![0], &patch).is_ok());
    assert_eq!(atom_at(ws, 0, 5), Some(Some(atom(6, 1.0, 2.0, 3.0))));

    assert!(ws.remove_stack(0).is_ok());
    assert!(matches!(ws.read_stack(0), Err(WorkspaceError::StackNotFound)));
    assert!(matches!(ws.remove_stack(0), Err(WorkspaceError::StackNotFound)));
}

#[test]
fn capacity_bound_rejects_whole_batch() {
    let mut ws = Workspace::new(3);
    let mut patch = Molecule::empty();
    patch.set_atom(0, Some(atom(1, 0.5, 0.5, 0.5)));
    assert_eq!(
        ws.write_to_stacks(&vec![0, 7], &patch),
        Err(WorkspaceError::IndexOutOfCoreSize)
    );
    assert_eq!(
        ws.write_to_stacks(&vec![3], &patch),
        Err(WorkspaceError::IndexOutOfCoreSize)
    );
    assert_eq!(atom_at(&ws, 0, 0), None);
    assert_eq!(
        ws.overlay_to_stacks(&vec![0, 7], &Layer::Fill(patch)),
        Err(WorkspaceError::IndexOutOfCoreSize)
    );
    assert_eq!(atom_at(&ws, 0, 0), None);
}

#[test]
fn empty_slot_fails_whole_batch_before_any_write() {
    let mut ws = Workspace::new(4);
    assert!(ws.remove_stack(1).is_ok());
    let mut patch = Molecule::empty();
    patch.set_atom(2, Some(atom(8, 1.0, 1.0, 1.0)));
    assert_eq!(
        ws.write_to_stacks(&vec![0, 1], &patch),
        Err(WorkspaceError::StackNotFound)
    );
    assert_eq!(atom_at(&ws, 0, 2), None);
    let layer = Layer::Fill(patch);
    assert_eq!(
        ws.overlay_to_stacks(&vec![0, 1], &layer),
        Err(WorkspaceError::StackNotFound)
    );
    assert_eq!(atom_at(&ws, 0, 2), None);
}

#[test]
fn overlay_never_clears_but_patch_does() {
    let mut ws = Workspace::new(1);
    let mut base = Molecule::empty();
    base.set_atom(1, Some(atom(1, 1.0, 0.0, 0.0)));
    base.set_atom(2, Some(atom(2, 2.0, 0.0, 0.0)));
    assert!(ws.write_to_stacks(&vec![0], &base).is_ok());

    let mut sparse = Molecule::empty();
    sparse.set_atom(2, None);
    sparse.set_atom(3, Some(atom(3, 3.0, 0.0, 0.0)));

    let mut overlaid = Workspace::new(1);
    assert!(overlaid.write_to_stacks(&vec![0], &base).is_ok());
    assert!(overlaid.overlay_to_stacks(&vec![0], &Layer::Fill(sparse)).is_ok());
    assert_eq!(atom_at(&overlaid, 0, 1), Some(Some(atom(1, 1.0, 0.0, 0.0))));
    assert_eq!(atom_at(&overlaid, 0, 2), Some(Some(atom(2, 2.0, 0.0, 0.0))));
    assert_eq!(atom_at(&overlaid, 0, 3), Some(Some(atom(3, 3.0, 0.0, 0.0))));

    let mut sparse2 = Molecule::empty();
    sparse2.set_atom(2, None);
    sparse2.set_atom(3, Some(atom(3, 3.0, 0.0, 0.0)));
    assert!(ws.write_to_stacks(&vec![0], &sparse2).is_ok());
    assert_eq!(atom_at(&ws, 0, 1), Some(Some(atom(1, 1.0, 0.0, 0.0))));
    assert_eq!(atom_at(&ws, 0, 2), Some(None));
    assert_eq!(atom_at(&ws, 0, 3), Some(Some(atom(3, 3.0, 0.0, 0.0))));
}

#[test]
fn id_names_bind_and_unbind() {
    let mut ws = Workspace::new(1);
    assert!(ws.set_name(3, "anchor".to_string()).is_ok());
    assert!(ws.set_name(4, "pivot".to_string()).is_ok());
    assert_eq!(ws.get_name(&"anchor".to_string()), Some(3));
    assert!(ws.set_name(5, "anchor".to_string()).is_ok());
    assert_eq!(ws.get_name(&"anchor".to_string()), Some(5));
    assert!(ws.remove_name(5).is_ok());
    assert_eq!(ws.get_name(&"anchor".to_string()), None);
    assert_eq!(ws.get_name(&"pivot".to_string()), Some(4));
    assert!(ws.remove_name(9).is_ok());
}

#[test]
fn class_names_set_and_unset_symmetrically() {
    let mut ws = Workspace::new(1);
    let pairs = vec![("ligand".to_string(), 1), ("ligand".to_string(), 2)];
    ws.set_class_name(pairs.clone());
    ws.set_class_name(pairs.clone());
    let m = ws.read_stack(0).unwrap();
    let members = m.class_members(&"ligand".to_string(), ws.get_classes());
    let mut sorted: Vec<usize> = members.clone();
    sorted.sort();
    sorted.dedup();
    assert_eq!(sorted, vec![1, 2]);
    ws.unset_class_name(vec![("ligand".to_string(), 1)]);
    let m = ws.read_stack(0).unwrap();
    let members = m.class_members(&"ligand".to_string(), ws.get_classes());
    assert_eq!(members, vec![2]);
    ws.unset_class_name(vec![("ligand".to_string(), 1)]);
    let m = ws.read_stack(0).unwrap();
    let members = m.class_members(&"ligand".to_string(), ws.get_classes());
    assert_eq!(members, vec![2]);
}

#[test]
fn stack_class_tags_resolve_together_with_workspace_tags() {
    let mut ws = Workspace::new(1);
    let mut patch = Molecule::empty();
    patch.set_atom(1, Some(atom(1, 0.0, 0.0, 0.0)));
    patch.set_atom(2, Some(atom(2, 0.0, 0.0, 0.0)));
    assert!(ws.write_to_stacks(&vec![0], &patch).is_ok());
    assert!(ws.set_stack_class_name(&vec![0], &vec![("ligand".to_string(), 1)]).is_ok());
    ws.set_class_name(vec![("ligand".to_string(), 2)]);
    let m = ws.read_stack(0).unwrap();
    assert!(m.has_class_pair(&"ligand".to_string(), 1));
    assert!(!m.has_class_pair(&"ligand".to_string(), 2));
    let mut members = m.class_members(&"ligand".to_string(), ws.get_classes());
    members.sort();
    assert_eq!(members, vec![1, 2]);
}

#[test]
fn transform_group_precheck_is_all_or_nothing() {
    let mut ws = Workspace::new(2);
    let mut patch = Molecule::empty();
    patch.set_atom(1, Some(atom(6, 1.0, 2.0, 3.0)));
    assert!(ws.write_to_stacks(&vec![0], &patch).is_ok());
    assert!(ws.set_stack_class_name(&vec![0], &vec![("ligand".to_string(), 1)]).is_ok());
    assert!(ws.remove_stack(1).is_ok());

    let t = translation(1.0, 0.0, 0.0);
    assert_eq!(
        transform_group(&mut ws, vec![0, 1], "ligand", &t, false),
        Err(WorkspaceError::StackNotFound)
    );
    assert_eq!(atom_at(&ws, 0, 1), Some(Some(atom(6, 1.0, 2.0, 3.0))));
}

#[test]
fn identity_transform_moves_nothing() {
    let mut ws = Workspace::new(2);
    let mut patch = Molecule::empty();
    patch.set_atom(1, Some(atom(6, 1.5, -2.0, 3.25)));
    patch.set_atom(2, Some(atom(8, 4.0, 5.0, 6.0)));
    assert!(ws.write_to_stacks(&vec![0, 1], &patch).is_ok());
    ws.set_class_name(vec![("ligand".to_string(), 1), ("ligand".to_string(), 2)]);

    assert!(transform_group(&mut ws, vec![0, 1], "ligand", &identity(), false).is_ok());
    assert_eq!(atom_at(&ws, 0, 1), Some(Some(atom(6, 1.5, -2.0, 3.25))));
    assert_eq!(atom_at(&ws, 1, 2), Some(Some(atom(8, 4.0, 5.0, 6.0))));
}

#[test]
fn translating_twice_composes() {
    let mut once = Workspace::new(1);
    let mut twice = Workspace::new(1);
    let mut patch = Molecule::empty();
    patch.set_atom(1, Some(atom(6, 1.0, 2.0, 3.0)));
    assert!(once.write_to_stacks(&vec![0], &patch).is_ok());
    let mut patch2 = Molecule::empty();
    patch2.set_atom(1, Some(atom(6, 1.0, 2.0, 3.0)));
    assert!(twice.write_to_stacks(&vec![0], &patch2).is_ok());
    once.set_class_name(vec![("ligand".to_string(), 1)]);
    twice.set_class_name(vec![("ligand".to_string(), 1)]);

    let step = translation(1.0, 2.0, 3.0);
    let composed = translation(2.0, 4.0, 6.0);
    assert!(transform_group(&mut twice, vec![0], "ligand", &step, false).is_ok());
    assert!(transform_group(&mut twice, vec![0], "ligand", &step, false).is_ok());
    assert!(transform_group(&mut once, vec![0], "ligand", &composed, false).is_ok());
    assert_eq!(atom_at(&once, 0, 1), atom_at(&twice, 0, 1));
    assert_eq!(atom_at(&twice, 0, 1), Some(Some(atom(6, 3.0, 6.0, 9.0))));
}

#[test]
fn write_back_after_snapshot_is_not_rolled_back() {
    // the pre-check is all-or-nothing, but the write-back phase is not
    // transactional: a stack removed between the snapshot and its write
    // fails its own write, and writes already applied stay applied
    let mut ws = Workspace::new(2);
    let mut patch = Molecule::empty();
    patch.set_atom(1, Some(atom(6, 1.0, 0.0, 0.0)));
    assert!(ws.write_to_stacks(&vec![0, 1], &patch).is_ok());
    ws.set_class_name(vec![("ligand".to_string(), 1)]);

    let t = translation(1.0, 0.0, 0.0);
    let collected = ws
        .collect_class_atoms(&vec![0, 1], &"ligand".to_string())
        .unwrap();
    assert!(ws.remove_stack(1).is_ok());
    let mut results: Vec<Result<(), WorkspaceError>> = Vec::new();
    for (stack_idx, atoms) in collected {
        let mut moved: Vec<(usize, Atom)> = Vec::new();
        for (idx, a) in atoms.iter() {
            moved.push((
                *idx,
                Atom { element: a.element, position: moved_position(&t, &a.position) },
            ));
        }
        let r = ws.write_stack_atoms(stack_idx, &moved, false);
        let failed = r.is_err();
        results.push(r);
        if failed {
            break;
        }
    }
    assert_eq!(results, vec![Ok(()), Err(WorkspaceError::StackNotFound)]);
    assert_eq!(atom_at(&ws, 0, 1), Some(Some(atom(6, 2.0, 0.0, 0.0))));
}

#[test]
fn zero_capacity_and_empty_batches() {
    let mut ws = Workspace::new(0);
    assert!(matches!(ws.read_stack(0), Err(WorkspaceError::StackNotFound)));
    let patch = Molecule::empty();
    assert!(ws.write_to_stacks(&vec![], &patch).is_ok());
    assert_eq!(
        ws.write_to_stacks(&vec![0], &patch),
        Err(WorkspaceError::IndexOutOfCoreSize)
    );
    let mut ws1 = Workspace::new(1);
    assert!(ws1.write_to_stacks(&vec![], &patch).is_ok());
    assert!(ws1.overlay_to_stacks(&vec![], &Layer::Fill(patch)).is_ok());
    let m = ws1.read_stack(0).unwrap();
    assert_eq!(m.get_atom(0), None);
    assert!(m.class_pairs().is_empty());
}

#[test]
fn transform_group_skips_non_members_and_missing_atoms() {
    let mut ws = Workspace::new(1);
    let mut patch = Molecule::empty();
    patch.set_atom(1, Some(atom(6, 1.0, 0.0, 0.0)));
    patch.set_atom(2, Some(atom(8, 2.0, 0.0, 0.0)));
    assert!(ws.write_to_stacks(&vec![0], &patch).is_ok());
    // atom 1 is a member; 9 is tagged but holds no atom; 2 is untagged
    ws.set_class_name(vec![("ligand".to_string(), 1), ("ligand".to_string(), 9)]);

    let t = translation(0.5, 0.0, 0.0);
    assert!(transform_group(&mut ws, vec![0], "ligand", &t, true).is_ok());
    assert_eq!(atom_at(&ws, 0, 1), Some(Some(atom(6, 1.5, 0.0, 0.0))));
    assert_eq!(atom_at(&ws, 0, 2), Some(Some(atom(8, 2.0, 0.0, 0.0))));
    assert_eq!(atom_at(&ws, 0, 9), None);
}
