use process1::unit::{
    relation_has_atom, relation_inverse, JobMode, UnitDb, UnitDbError, UnitNotifyFlags,
    UnitRelationAtom, UnitRelations, UnitType, UnitX, UNIT_NOTIFY_RELOAD_FAILURE,
    UNIT_NOTIFY_WILL_AUTO_RESTART,
};

fn unit(name: &str) -> UnitX {
    UnitX::new(UnitType::UnitService, name)
}

#[test]
fn units_get_their_handles_in_order() {
    let mut db = UnitDb::new();
    assert_eq!(db.units_len(), 0);
    let a = db.units_insert(String::from("a.service"), unit("a.service"));
    let b = db.units_insert(String::from("b.service"), unit("b.service"));
    assert_eq!((a, b), (0, 1));
    assert_eq!(db.units_len(), 2);
    assert_eq!(db.units_get(&String::from("b.service")), Some(1));
    assert_eq!(db.units_get(&String::from("c.service")), None);
}

#[test]
fn unit_of_a_known_name_is_replaced() {
    let mut db = UnitDb::new();
    let a = db.units_insert(String::from("a.service"), unit("a.service"));
    db.units_configure(a, true, JobMode::JobFail).unwrap();
    assert!(db.allow_isolate(a));
    let again = db.units_insert(String::from("a.service"), unit("a.service"));
    assert_eq!(again, a);
    assert_eq!(db.units_len(), 1);
    assert!(!db.allow_isolate(a));
    assert_eq!(db.on_failure_job_mode(a), JobMode::JobReplace);
}

#[test]
fn unknown_units_have_no_configuration() {
    let mut db = UnitDb::new();
    assert!(!db.allow_isolate(3));
    assert_eq!(db.on_failure_job_mode(3), JobMode::JobReplace);
    assert_eq!(db.units_configure(3, true, JobMode::JobFail), Err(UnitDbError::UnitNotFound));
    assert_eq!(
        db.dep_insert(0, UnitRelations::UnitRequires, 1, true, 0),
        Err(UnitDbError::UnitNotFound)
    );
    assert_eq!(db.dep_gets_atom(0, UnitRelationAtom::UnitAtomPullInStart).len(), 0);
}

#[test]
fn edges_are_recorded_with_their_inverse() {
    let mut db = UnitDb::new();
    let a = db.units_insert(String::from("a"), unit("a"));
    let b = db.units_insert(String::from("b"), unit("b"));
    let c = db.units_insert(String::from("c"), unit("c"));
    db.dep_insert(a, UnitRelations::UnitRequires, b, true, 0).unwrap();
    db.dep_insert(a, UnitRelations::UnitBindsTo, c, false, 0).unwrap();
    db.dep_insert(a, UnitRelations::UnitWants, c, true, 0).unwrap();
    assert_eq!(db.dep_gets_atom(a, UnitRelationAtom::UnitAtomPullInStart), vec![b, c]);
    assert_eq!(db.dep_gets_atom(a, UnitRelationAtom::UnitAtomPullInStartIgnored), vec![c]);
    assert_eq!(db.dep_gets_atom(b, UnitRelationAtom::UnitAtomPropagateStop), vec![a]);
    assert_eq!(db.dep_gets_atom(c, UnitRelationAtom::UnitAtomPropagateStop).len(), 0);
    assert!(db.dep_is_dep_atom_with(b, UnitRelationAtom::UnitAtomPropagateStartFailure, a));
    assert!(!db.dep_is_dep_atom_with(a, UnitRelationAtom::UnitAtomPropagateStartFailure, b));
}

#[test]
fn every_relation_is_the_inverse_of_its_inverse() {
    let all = [
        UnitRelations::UnitRequires,
        UnitRelations::UnitRequisite,
        UnitRelations::UnitWants,
        UnitRelations::UnitBindsTo,
        UnitRelations::UnitPartOf,
        UnitRelations::UnitRequiresBy,
        UnitRelations::UnitRequisiteOf,
        UnitRelations::UnitWantsBy,
        UnitRelations::UnitBoundBy,
        UnitRelations::UnitConsistsOf,
        UnitRelations::UnitConflicts,
        UnitRelations::UnitConflictedBy,
        UnitRelations::UnitBefore,
        UnitRelations::UnitAfter,
        UnitRelations::UnitOnFailure,
        UnitRelations::UnitOnFailureOf,
        UnitRelations::UnitOnSuccess,
        UnitRelations::UnitOnSuccessOf,
        UnitRelations::UnitTriggers,
        UnitRelations::UnitTriggeredBy,
        UnitRelations::UnitPropagatesReloadTo,
        UnitRelations::UnitReloadPropagatedFrom,
    ];
    for relation in all {
        assert_ne!(relation_inverse(relation), relation);
        assert_eq!(relation_inverse(relation_inverse(relation)), relation);
    }
    assert_eq!(relation_inverse(UnitRelations::UnitBefore), UnitRelations::UnitAfter);
    assert!(relation_has_atom(UnitRelations::UnitRequisite, UnitRelationAtom::UnitAtomPullInVerify));
    assert!(!relation_has_atom(UnitRelations::UnitWants, UnitRelationAtom::UnitAtomPullInStart));
}

#[test]
fn flags_intersect_by_their_bits() {
    let flags = UnitNotifyFlags::from_bits(UNIT_NOTIFY_WILL_AUTO_RESTART);
    assert!(flags.intersects(UNIT_NOTIFY_WILL_AUTO_RESTART));
    assert!(!flags.intersects(UNIT_NOTIFY_RELOAD_FAILURE));
    assert!(!UnitNotifyFlags::empty().intersects(UNIT_NOTIFY_WILL_AUTO_RESTART));
    assert!(UnitNotifyFlags::from_bits(3).intersects(UNIT_NOTIFY_RELOAD_FAILURE));
}
