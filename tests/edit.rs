use harvest::edit::{Edit, NotWritable};
use harvest::id::{Id, IdAllocator};
use harvest::organizer::{ApplyError, NewEditError, Organizer};
use harvest::repr::{Kind, ProjectKind, Representation};
use harvest::tree::RawDir;

fn raw() -> Representation {
    Representation::RawSource(RawDir::new())
}

fn set_equal(left: &[Id], right: &[Id]) -> bool {
    let mut left: Vec<_> = left.to_vec();
    let mut right: Vec<_> = right.to_vec();
    left.sort_unstable();
    right.sort_unstable();
    left == right
}

#[test]
fn edit() {
    let mut ids = IdAllocator::new();
    let [a, b, c] = [Id::new(&mut ids), Id::new(&mut ids), Id::new(&mut ids)];
    let mut edit = Edit::new(&vec![a, b]);
    let d = edit.add_representation(&mut ids, raw());
    let e = edit.new_id(&mut ids);
    assert_eq!(edit.try_write_id(a, raw()), Ok(()), "failed to set writable ID");
    assert_eq!(edit.try_write_id(c, raw()), Err(NotWritable), "set unwritable ID");
    edit.write_id(d, raw());
    edit.write_id(e, raw());
    assert!(set_equal(&edit.changed_ids(), &[a, d, e]), "changed IDs incorrect");
}

#[test]
fn changed_ids_lists_each_id_once() {
    let mut ids = IdAllocator::new();
    let a = Id::new(&mut ids);
    let mut edit = Edit::new(&vec![a]);
    assert!(edit.changed_ids().is_empty());
    edit.write_id(a, raw());
    edit.write_id(a, Representation::ProjectKind(ProjectKind::Library));
    assert_eq!(edit.changed_ids(), vec![a]);
}

fn seeded(org: &mut Organizer, ids: &mut IdAllocator, n: usize) -> Vec<Id> {
    let mut edit = org.new_edit(&vec![]).expect("setup edit failed");
    let made: Vec<Id> = (0..n).map(|_| edit.add_representation(ids, raw())).collect();
    org.apply_edit(edit).expect("setup edit failed");
    made
}

#[test]
fn empty_organizer_accepts_empty_edit() {
    let mut org = Organizer::new();
    let edit = org.new_edit(&vec![]).expect("empty edit refused");
    assert_eq!(org.apply_edit(edit), Ok(0));
    assert_eq!(org.snapshot().len(), 0);
    assert_eq!(org.next_version(), 1);
}

#[test]
fn new_edit_reports_in_use_before_unknown() {
    let mut ids = IdAllocator::new();
    let mut org = Organizer::new();
    let made = seeded(&mut org, &mut ids, 2);
    let unknown = Id::new(&mut ids);
    assert_eq!(org.new_edit(&vec![made[0], unknown]).err(), Some(NewEditError::UnknownId));
    let held = org.new_edit(&vec![made[0]]).expect("edit refused");
    assert_eq!(org.new_edit(&vec![made[0], unknown]).err(), Some(NewEditError::IdInUse));
    assert_eq!(org.new_edit(&vec![made[1], unknown]).err(), Some(NewEditError::UnknownId));
    assert_eq!(org.new_edit(&vec![made[1], made[0]]).err(), Some(NewEditError::IdInUse));
    assert!(org.new_edit(&vec![made[1]]).is_ok());
    org.release(held.token_value());
    assert!(org.new_edit(&vec![made[0]]).is_ok());
}

#[test]
fn apply_replaces_and_adds() {
    let mut ids = IdAllocator::new();
    let mut org = Organizer::new();
    let made = seeded(&mut org, &mut ids, 2);
    let before = org.snapshot();
    let mut edit = org.new_edit(&vec![made[1]]).unwrap();
    edit.write_id(made[1], Representation::ProjectKind(ProjectKind::Executable));
    let added = edit.add_representation(&mut ids, Representation::CargoBuildResult(Ok(vec![])));
    assert_eq!(org.apply_edit(edit), Ok(1));
    let after = org.snapshot();
    assert_eq!(after.ids(), vec![made[0], made[1], added]);
    assert_eq!(after.get(made[0]).unwrap().kind(), Kind::RawSource);
    assert_eq!(after.get(made[1]).unwrap().kind(), Kind::ProjectKind);
    assert_eq!(after.get(added).unwrap().kind(), Kind::CargoBuildResult);
    assert_eq!(before.ids(), vec![made[0], made[1]]);
    assert_eq!(before.get(made[1]).unwrap().kind(), Kind::RawSource);
    assert!(org.new_edit(&vec![made[1]]).is_ok(), "reservation kept after apply");
}

#[test]
fn apply_rejects_write_without_reservation() {
    let mut ids = IdAllocator::new();
    let mut org = Organizer::new();
    let made = seeded(&mut org, &mut ids, 1);
    let mut stray = Edit::new(&vec![made[0]]);
    stray.write_id(made[0], Representation::ProjectKind(ProjectKind::Library));
    assert_eq!(org.apply_edit(stray), Err(ApplyError::NotReserved));
    assert_eq!(org.snapshot().get(made[0]).unwrap().kind(), Kind::RawSource);
    assert_eq!(org.next_version(), 1);
}

#[test]
fn unwritten_new_id_becomes_known() {
    let mut ids = IdAllocator::new();
    let mut org = Organizer::new();
    let mut edit = org.new_edit(&vec![]).unwrap();
    let fresh = edit.new_id(&mut ids);
    assert_eq!(org.new_edit(&vec![fresh]).err(), Some(NewEditError::UnknownId));
    org.apply_edit(edit).unwrap();
    assert!(!org.snapshot().contains_id(fresh));
    assert!(org.new_edit(&vec![fresh]).is_ok());
}

#[test]
fn get_by_representation() {
    let mut ids = IdAllocator::new();
    let mut org = Organizer::new();
    let mut edit = org.new_edit(&vec![]).unwrap();
    edit.add_representation(&mut ids, raw());
    let b = edit.add_representation(&mut ids, Representation::ProjectKind(ProjectKind::Library));
    edit.add_representation(&mut ids, raw());
    let d = edit.add_representation(&mut ids, Representation::ProjectKind(ProjectKind::Executable));
    org.apply_edit(edit).unwrap();
    assert_eq!(org.snapshot().get_by_kind(Kind::ProjectKind), vec![b, d]);
}

#[test]
fn allocated_ids_are_fresh_for_the_edit() {
    let mut ids = IdAllocator::new();
    let a = Id::new(&mut ids);
    let mut edit = Edit::new(&vec![a]);
    assert_eq!(edit.highest_id(), a.get());
    let b = edit.new_id(&mut ids);
    let c = edit.add_representation(&mut ids, raw());
    assert!(a != b && b != c && a != c);
    assert_eq!(edit.highest_id(), c.get());
    assert_eq!(edit.try_write_id(b, raw()), Ok(()));
}
