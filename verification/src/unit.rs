//! Units as the job engine sees them: a handle, a little configuration, and the
//! dependency edges between them, kept in one store that is only ever queried here.
use crate::seq_util::{lemma_filter_take_next, lemma_map_values_push};
use vstd::prelude::*;

verus! {

/// Handle of a unit: its position in the store it was inserted into.
pub type UnitId = usize;

/// Activation state that a unit reports.
#[derive(Clone, Copy, Debug, PartialEq, Eq, Structural)]
pub enum UnitActiveState {
    UnitActive,
    UnitInActive,
    UnitFailed,
    UnitActivating,
    UnitDeActivating,
    UnitMaintenance,
}

/// Reply bit: the reload that just ended had failed.
pub const UNIT_NOTIFY_RELOAD_FAILURE: u8 = 1;

/// Reply bit: the unit is going to be restarted by its own policy.
pub const UNIT_NOTIFY_WILL_AUTO_RESTART: u8 = 2;

/// Set of flags that accompanies a state change of a unit.
#[derive(Clone, Copy, Debug, PartialEq, Eq, Structural)]
pub struct UnitNotifyFlags {
    pub bits: u8,
}

impl UnitNotifyFlags {
    pub fn empty() -> (flags: UnitNotifyFlags)
        ensures
            flags.bits == 0,
    {
        UnitNotifyFlags { bits: 0 }
    }

    pub fn from_bits(bits: u8) -> (flags: UnitNotifyFlags)
        ensures
            flags.bits == bits,
    {
        UnitNotifyFlags { bits }
    }

    /// Whether at least one bit of `mask` is set.
    pub open spec fn spec_intersects(&self, mask: u8) -> bool {
        self.bits & mask != 0
    }

    #[verifier::when_used_as_spec(spec_intersects)]
    pub fn intersects(&self, mask: u8) -> (hit: bool)
        ensures
            hit == self.spec_intersects(mask),
    {
        self.bits & mask != 0
    }
}

/// Policy for a transaction that meets work already queued.
#[derive(Clone, Copy, Debug, PartialEq, Eq, Structural)]
pub enum JobMode {
    JobFail,
    JobReplace,
    JobIsolate,
    JobIgnoreDependencies,
    JobIgnoreRequirements,
    JobTrigger,
}

#[derive(Clone, Copy, Debug, PartialEq, Eq, Structural)]
pub enum UnitType {
    UnitService,
    UnitTarget,
    UnitSocket,
    UnitMount,
}

/// Dependency relations as they are declared between two units.
#[derive(Clone, Copy, Debug, PartialEq, Eq, Structural)]
pub enum UnitRelations {
    UnitRequires,
    UnitRequisite,
    UnitWants,
    UnitBindsTo,
    UnitPartOf,
    UnitRequiresBy,
    UnitRequisiteOf,
    UnitWantsBy,
    UnitBoundBy,
    UnitConsistsOf,
    UnitConflicts,
    UnitConflictedBy,
    UnitBefore,
    UnitAfter,
    UnitOnFailure,
    UnitOnFailureOf,
    UnitOnSuccess,
    UnitOnSuccessOf,
    UnitTriggers,
    UnitTriggeredBy,
    UnitPropagatesReloadTo,
    UnitReloadPropagatedFrom,
}

/// What a relation means to the job engine. One relation may carry several atoms,
/// and one atom may be carried by several relations.
#[derive(Clone, Copy, Debug, PartialEq, Eq, Structural)]
pub enum UnitRelationAtom {
    UnitAtomPullInStart,
    UnitAtomPullInStartIgnored,
    UnitAtomPullInVerify,
    UnitAtomPullInStop,
    UnitAtomPullInStopIgnored,
    UnitAtomPropagateStop,
    UnitAtomPropagateStartFailure,
    UnitAtomPropagateStopFailure,
    UnitAtomPropagatesReloadTo,
    UnitAtomRetroActiveStartReplace,
    UnitAtomRetroActiveStartFail,
    UnitAtomRetroActiveStopOnStart,
    UnitAtomRetroActiveStopOnStop,
    UnitAtomOnFailure,
    UnitAtomOnSuccess,
    UnitAtomTriggers,
    UnitAtomTriggeredBy,
    UnitAtomBefore,
    UnitAtomAfter,
}

/// The relation that `dep_insert` records at the other end of an edge.
pub open spec fn relation_inverse_spec(relation: UnitRelations) -> UnitRelations {
    match relation {
        UnitRelations::UnitRequires => UnitRelations::UnitRequiresBy,
        UnitRelations::UnitRequisite => UnitRelations::UnitRequisiteOf,
        UnitRelations::UnitWants => UnitRelations::UnitWantsBy,
        UnitRelations::UnitBindsTo => UnitRelations::UnitBoundBy,
        UnitRelations::UnitPartOf => UnitRelations::UnitConsistsOf,
        UnitRelations::UnitRequiresBy => UnitRelations::UnitRequires,
        UnitRelations::UnitRequisiteOf => UnitRelations::UnitRequisite,
        UnitRelations::UnitWantsBy => UnitRelations::UnitWants,
        UnitRelations::UnitBoundBy => UnitRelations::UnitBindsTo,
        UnitRelations::UnitConsistsOf => UnitRelations::UnitPartOf,
        UnitRelations::UnitConflicts => UnitRelations::UnitConflictedBy,
        UnitRelations::UnitConflictedBy => UnitRelations::UnitConflicts,
        UnitRelations::UnitBefore => UnitRelations::UnitAfter,
        UnitRelations::UnitAfter => UnitRelations::UnitBefore,
        UnitRelations::UnitOnFailure => UnitRelations::UnitOnFailureOf,
        UnitRelations::UnitOnFailureOf => UnitRelations::UnitOnFailure,
        UnitRelations::UnitOnSuccess => UnitRelations::UnitOnSuccessOf,
        UnitRelations::UnitOnSuccessOf => UnitRelations::UnitOnSuccess,
        UnitRelations::UnitTriggers => UnitRelations::UnitTriggeredBy,
        UnitRelations::UnitTriggeredBy => UnitRelations::UnitTriggers,
        UnitRelations::UnitPropagatesReloadTo => UnitRelations::UnitReloadPropagatedFrom,
        UnitRelations::UnitReloadPropagatedFrom => UnitRelations::UnitPropagatesReloadTo,
    }
}

#[verifier::when_used_as_spec(relation_inverse_spec)]
pub fn relation_inverse(relation: UnitRelations) -> (inverse: UnitRelations)
    ensures
        inverse == relation_inverse_spec(relation),
{
    match relation {
        UnitRelations::UnitRequires => UnitRelations::UnitRequiresBy,
        UnitRelations::UnitRequisite => UnitRelations::UnitRequisiteOf,
        UnitRelations::UnitWants => UnitRelations::UnitWantsBy,
        UnitRelations::UnitBindsTo => UnitRelations::UnitBoundBy,
        UnitRelations::UnitPartOf => UnitRelations::UnitConsistsOf,
        UnitRelations::UnitRequiresBy => UnitRelations::UnitRequires,
        UnitRelations::UnitRequisiteOf => UnitRelations::UnitRequisite,
        UnitRelations::UnitWantsBy => UnitRelations::UnitWants,
        UnitRelations::UnitBoundBy => UnitRelations::UnitBindsTo,
        UnitRelations::UnitConsistsOf => UnitRelations::UnitPartOf,
        UnitRelations::UnitConflicts => UnitRelations::UnitConflictedBy,
        UnitRelations::UnitConflictedBy => UnitRelations::UnitConflicts,
        UnitRelations::UnitBefore => UnitRelations::UnitAfter,
        UnitRelations::UnitAfter => UnitRelations::UnitBefore,
        UnitRelations::UnitOnFailure => UnitRelations::UnitOnFailureOf,
        UnitRelations::UnitOnFailureOf => UnitRelations::UnitOnFailure,
        UnitRelations::UnitOnSuccess => UnitRelations::UnitOnSuccessOf,
        UnitRelations::UnitOnSuccessOf => UnitRelations::UnitOnSuccess,
        UnitRelations::UnitTriggers => UnitRelations::UnitTriggeredBy,
        UnitRelations::UnitTriggeredBy => UnitRelations::UnitTriggers,
        UnitRelations::UnitPropagatesReloadTo => UnitRelations::UnitReloadPropagatedFrom,
        UnitRelations::UnitReloadPropagatedFrom => UnitRelations::UnitPropagatesReloadTo,
    }
}

/// Whether an edge of kind `relation` carries `atom`.
pub open spec fn relation_has_atom_spec(relation: UnitRelations, atom: UnitRelationAtom) -> bool {
    match atom {
        UnitRelationAtom::UnitAtomPullInStart => relation == UnitRelations::UnitRequires
            || relation == UnitRelations::UnitBindsTo,
        UnitRelationAtom::UnitAtomPullInStartIgnored => relation == UnitRelations::UnitWants,
        UnitRelationAtom::UnitAtomPullInVerify => relation == UnitRelations::UnitRequisite,
        UnitRelationAtom::UnitAtomPullInStop => relation == UnitRelations::UnitConflicts,
        UnitRelationAtom::UnitAtomPullInStopIgnored => relation
            == UnitRelations::UnitConflictedBy,
        UnitRelationAtom::UnitAtomPropagateStop => relation == UnitRelations::UnitRequiresBy
            || relation == UnitRelations::UnitRequisiteOf || relation
            == UnitRelations::UnitBoundBy || relation == UnitRelations::UnitConsistsOf,
        UnitRelationAtom::UnitAtomPropagateStartFailure => relation
            == UnitRelations::UnitRequiresBy || relation == UnitRelations::UnitRequisiteOf
            || relation == UnitRelations::UnitBoundBy,
        UnitRelationAtom::UnitAtomPropagateStopFailure => relation
            == UnitRelations::UnitConflictedBy,
        UnitRelationAtom::UnitAtomPropagatesReloadTo => relation
            == UnitRelations::UnitPropagatesReloadTo || relation
            == UnitRelations::UnitConsistsOf,
        UnitRelationAtom::UnitAtomRetroActiveStartReplace => relation
            == UnitRelations::UnitRequires || relation == UnitRelations::UnitBindsTo,
        UnitRelationAtom::UnitAtomRetroActiveStartFail => relation == UnitRelations::UnitWants,
        UnitRelationAtom::UnitAtomRetroActiveStopOnStart => relation
            == UnitRelations::UnitConflicts || relation == UnitRelations::UnitConflictedBy,
        UnitRelationAtom::UnitAtomRetroActiveStopOnStop => relation
            == UnitRelations::UnitBoundBy,
        UnitRelationAtom::UnitAtomOnFailure => relation == UnitRelations::UnitOnFailure,
        UnitRelationAtom::UnitAtomOnSuccess => relation == UnitRelations::UnitOnSuccess,
        UnitRelationAtom::UnitAtomTriggers => relation == UnitRelations::UnitTriggers,
        UnitRelationAtom::UnitAtomTriggeredBy => relation == UnitRelations::UnitTriggeredBy,
        UnitRelationAtom::UnitAtomBefore => relation == UnitRelations::UnitBefore,
        UnitRelationAtom::UnitAtomAfter => relation == UnitRelations::UnitAfter,
    }
}

#[verifier::when_used_as_spec(relation_has_atom_spec)]
pub fn relation_has_atom(relation: UnitRelations, atom: UnitRelationAtom) -> (has: bool)
    ensures
        has == relation_has_atom_spec(relation, atom),
{
    match atom {
        UnitRelationAtom::UnitAtomPullInStart => relation == UnitRelations::UnitRequires
            || relation == UnitRelations::UnitBindsTo,
        UnitRelationAtom::UnitAtomPullInStartIgnored => relation == UnitRelations::UnitWants,
        UnitRelationAtom::UnitAtomPullInVerify => relation == UnitRelations::UnitRequisite,
        UnitRelationAtom::UnitAtomPullInStop => relation == UnitRelations::UnitConflicts,
        UnitRelationAtom::UnitAtomPullInStopIgnored => relation
            == UnitRelations::UnitConflictedBy,
        UnitRelationAtom::UnitAtomPropagateStop => relation == UnitRelations::UnitRequiresBy
            || relation == UnitRelations::UnitRequisiteOf || relation
            == UnitRelations::UnitBoundBy || relation == UnitRelations::UnitConsistsOf,
        UnitRelationAtom::UnitAtomPropagateStartFailure => relation
            == UnitRelations::UnitRequiresBy || relation == UnitRelations::UnitRequisiteOf
            || relation == UnitRelations::UnitBoundBy,
        UnitRelationAtom::UnitAtomPropagateStopFailure => relation
            == UnitRelations::UnitConflictedBy,
        UnitRelationAtom::UnitAtomPropagatesReloadTo => relation
            == UnitRelations::UnitPropagatesReloadTo || relation
            == UnitRelations::UnitConsistsOf,
        UnitRelationAtom::UnitAtomRetroActiveStartReplace => relation
            == UnitRelations::UnitRequires || relation == UnitRelations::UnitBindsTo,
        UnitRelationAtom::UnitAtomRetroActiveStartFail => relation == UnitRelations::UnitWants,
        UnitRelationAtom::UnitAtomRetroActiveStopOnStart => relation
            == UnitRelations::UnitConflicts || relation == UnitRelations::UnitConflictedBy,
        UnitRelationAtom::UnitAtomRetroActiveStopOnStop => relation
            == UnitRelations::UnitBoundBy,
        UnitRelationAtom::UnitAtomOnFailure => relation == UnitRelations::UnitOnFailure,
        UnitRelationAtom::UnitAtomOnSuccess => relation == UnitRelations::UnitOnSuccess,
        UnitRelationAtom::UnitAtomTriggers => relation == UnitRelations::UnitTriggers,
        UnitRelationAtom::UnitAtomTriggeredBy => relation == UnitRelations::UnitTriggeredBy,
        UnitRelationAtom::UnitAtomBefore => relation == UnitRelations::UnitBefore,
        UnitRelationAtom::UnitAtomAfter => relation == UnitRelations::UnitAfter,
    }
}

/// What the job engine reads of one unit.
pub struct UnitX {
    pub name: String,
    pub unit_type: UnitType,
    /// Whether the unit may be the target of an isolating start.
    pub allow_isolate: bool,
    /// Mode in which the jobs of the unit's failure relation are queued.
    pub on_failure_job_mode: JobMode,
}

impl UnitX {
    /// A unit with the configuration that an empty unit file gives: no isolation, and
    /// failure jobs that replace queued work.
    pub fn new(unit_type: UnitType, name: &str) -> (unit: UnitX)
        ensures
            unit.name@ == name@,
            unit.unit_type == unit_type,
            !unit.allow_isolate,
            unit.on_failure_job_mode == JobMode::JobReplace,
    {
        UnitX {
            name: name.to_owned(),
            unit_type,
            allow_isolate: false,
            on_failure_job_mode: JobMode::JobReplace,
        }
    }
}

/// One directed dependency edge.
#[derive(Clone, Copy, Debug, PartialEq, Eq, Structural)]
pub struct UnitDep {
    pub source: UnitId,
    pub relation: UnitRelations,
    pub dest: UnitId,
    /// Where the edge came from, as the inserter tagged it.
    pub mask: u16,
}

#[derive(Clone, Copy, Debug, PartialEq, Eq, Structural)]
pub enum UnitDbError {
    /// A handle that the store did not issue.
    UnitNotFound,
}

/// The store of units and of the dependency edges between them.
pub struct UnitDb {
    units: Vec<UnitX>,
    deps: Vec<UnitDep>,
}

/// The edges of `deps` that leave `unit` and carry `atom`.
pub open spec fn deps_of_atom(deps: Seq<UnitDep>, unit: UnitId, atom: UnitRelationAtom) -> Seq<
    UnitDep,
> {
    deps.filter(|d: UnitDep| d.source == unit && relation_has_atom_spec(d.relation, atom))
}

impl UnitDb {
    /// The units, each at the position that is its handle.
    pub closed spec fn units(&self) -> Seq<UnitX> {
        self.units@
    }

    /// The edges in the order of insertion.
    pub closed spec fn deps(&self) -> Seq<UnitDep> {
        self.deps@
    }

    pub open spec fn contains_unit(&self, unit: UnitId) -> bool {
        unit < self.units().len()
    }

    /// The units that `unit` reaches over an edge carrying `atom`, in the order in
    /// which the edges were inserted.
    pub open spec fn atom_dests(&self, unit: UnitId, atom: UnitRelationAtom) -> Seq<UnitId> {
        deps_of_atom(self.deps(), unit, atom).map_values(|d: UnitDep| d.dest)
    }

    /// Whether an edge carrying `atom` leads from `source` to `dest`.
    pub open spec fn has_atom(&self, source: UnitId, atom: UnitRelationAtom, dest: UnitId) -> bool {
        self.atom_dests(source, atom).contains(dest)
    }

    /// Whether `unit` may be isolated; a unit unknown to the store may not.
    pub open spec fn allows_isolate(&self, unit: UnitId) -> bool {
        self.contains_unit(unit) && self.units()[unit as int].allow_isolate
    }

    /// The mode of the failure jobs of `unit`; `JobReplace` for a unit unknown to the
    /// store.
    pub open spec fn failure_mode(&self, unit: UnitId) -> JobMode {
        if self.contains_unit(unit) {
            self.units()[unit as int].on_failure_job_mode
        } else {
            JobMode::JobReplace
        }
    }

    pub fn new() -> (db: UnitDb)
        ensures
            db.units().len() == 0,
            db.deps().len() == 0,
    {
        UnitDb { units: Vec::new(), deps: Vec::new() }
    }

    pub fn units_len(&self) -> (n: usize)
        ensures
            n == self.units().len(),
    {
        self.units.len()
    }

    /// The handle of the unit called `name`: the first one, if several carry the name.
    pub fn units_get(&self, name: &String) -> (found: Option<UnitId>)
        ensures
            match found {
                Some(id) => self.contains_unit(id) && self.units()[id as int].name@ == name@
                    && forall|k: int| 0 <= k < id ==> self.units()[k].name@ != name@,
                None => forall|k: int|
                    0 <= k < self.units().len() ==> self.units()[k].name@ != name@,
            },
    {
        let mut i: usize = 0;
        while i < self.units.len()
            invariant
                i <= self.units.len(),
                forall|k: int| 0 <= k < i ==> self.units@[k].name@ != name@,
            decreases self.units.len() - i,
        {
            if self.units[i].name == *name {
                return Some(i);
            }
            i = i + 1;
        }
        None
    }

    /// Puts `unit` into the store under `name`. A unit of that name that is already
    /// there is replaced and keeps its handle; otherwise the unit gets the next handle.
    pub fn units_insert(&mut self, name: String, unit: UnitX) -> (id: UnitId)
        ensures
            final(self).deps() == old(self).deps(),
            final(self).contains_unit(id),
            final(self).units()[id as int].name@ == name@,
            final(self).units()[id as int].unit_type == unit.unit_type,
            final(self).units()[id as int].allow_isolate == unit.allow_isolate,
            final(self).units()[id as int].on_failure_job_mode == unit.on_failure_job_mode,
            forall|k: int|
                0 <= k < old(self).units().len() && k != id ==> final(self).units()[k]
                    == old(self).units()[k],
            id < old(self).units().len() ==> old(self).units()[id as int].name@ == name@
                && final(self).units().len() == old(self).units().len(),
            id >= old(self).units().len() ==> id == old(self).units().len()
                && final(self).units().len() == id + 1 && forall|k: int|
                0 <= k < id ==> old(self).units()[k].name@ != name@,
    {
        let entry = UnitX {
            name,
            unit_type: unit.unit_type,
            allow_isolate: unit.allow_isolate,
            on_failure_job_mode: unit.on_failure_job_mode,
        };
        match self.units_get(&entry.name) {
            Some(id) => {
                self.units[id] = entry;
                id
            },
            None => {
                let id = self.units.len();
                self.units.push(entry);
                id
            },
        }
    }

    /// Sets the two configuration items that the job engine reads of a unit.
    pub fn units_configure(
        &mut self,
        unit: UnitId,
        allow_isolate: bool,
        on_failure_job_mode: JobMode,
    ) -> (res: Result<(), UnitDbError>)
        ensures
            final(self).deps() == old(self).deps(),
            final(self).units().len() == old(self).units().len(),
            res.is_ok() <==> old(self).contains_unit(unit),
            res.is_err() ==> res == Err::<(), UnitDbError>(UnitDbError::UnitNotFound)
                && final(self).units() == old(self).units(),
            res.is_ok() ==> final(self).allows_isolate(unit) == allow_isolate
                && final(self).failure_mode(unit) == on_failure_job_mode
                && final(self).units()[unit as int].name == old(self).units()[unit as int].name
                && final(self).units()[unit as int].unit_type
                == old(self).units()[unit as int].unit_type
                && forall|k: int|
                0 <= k < old(self).units().len() && k != unit ==> final(self).units()[k]
                    == old(self).units()[k],
    {
        if unit >= self.units.len() {
            return Err(UnitDbError::UnitNotFound);
        }
        self.units[unit].allow_isolate = allow_isolate;
        self.units[unit].on_failure_job_mode = on_failure_job_mode;
        Ok(())
    }

    /// Records the edge `source --relation--> dest`, and with `add_ref` also the
    /// inverse edge that leaves `dest`. Fails, and records nothing, if one of the two
    /// handles is unknown.
    pub fn dep_insert(
        &mut self,
        source: UnitId,
        relation: UnitRelations,
        dest: UnitId,
        add_ref: bool,
        source_mask: u16,
    ) -> (res: Result<(), UnitDbError>)
        ensures
            final(self).units() == old(self).units(),
            res.is_ok() <==> old(self).contains_unit(source) && old(self).contains_unit(dest),
            res.is_err() ==> res == Err::<(), UnitDbError>(UnitDbError::UnitNotFound)
                && final(self).deps() == old(self).deps(),
            res.is_ok() && !add_ref ==> final(self).deps() == old(self).deps().push(
                (UnitDep { source, relation, dest, mask: source_mask }),
            ),
            res.is_ok() && add_ref ==> final(self).deps() == old(self).deps().push(
                (UnitDep { source, relation, dest, mask: source_mask }),
            ).push(
                (UnitDep {
                    source: dest,
                    relation: relation_inverse_spec(relation),
                    dest: source,
                    mask: source_mask,
                }),
            ),
    {
        if source >= self.units.len() || dest >= self.units.len() {
            return Err(UnitDbError::UnitNotFound);
        }
        self.deps.push(UnitDep { source, relation, dest, mask: source_mask });
        if add_ref {
            self.deps.push(
                UnitDep {
                    source: dest,
                    relation: relation_inverse(relation),
                    dest: source,
                    mask: source_mask,
                },
            );
        }
        Ok(())
    }

    /// The units that `unit` reaches over an edge carrying `atom`.
    pub fn dep_gets_atom(&self, unit: UnitId, atom: UnitRelationAtom) -> (dests: Vec<UnitId>)
        ensures
            dests@ == self.atom_dests(unit, atom),
    {
        let mut dests: Vec<UnitId> = Vec::new();
        let ghost keep = |d: UnitDep| d.source == unit && relation_has_atom_spec(d.relation, atom);
        let ghost dest_of = |d: UnitDep| d.dest;
        let mut i: usize = 0;
        while i < self.deps.len()
            invariant
                i <= self.deps.len(),
                keep == |d: UnitDep| d.source == unit && relation_has_atom_spec(d.relation, atom),
                dest_of == |d: UnitDep| d.dest,
                dests@ == self.deps@.take(i as int).filter(keep).map_values(dest_of),
            decreases self.deps.len() - i,
        {
            let dep = self.deps[i];
            proof {
                lemma_filter_take_next(self.deps@, keep, i as int);
                lemma_map_values_push(self.deps@.take(i as int).filter(keep), dest_of, dep);
            }
            if dep.source == unit && relation_has_atom(dep.relation, atom) {
                dests.push(dep.dest);
            }
            i = i + 1;
        }
        proof {
            assert(self.deps@.take(i as int) =~= self.deps@);
        }
        dests
    }

    /// Whether an edge carrying `atom` leads from `source` to `dest`.
    pub fn dep_is_dep_atom_with(&self, source: UnitId, atom: UnitRelationAtom, dest: UnitId) -> (has:
        bool)
        ensures
            has == self.has_atom(source, atom, dest),
    {
        let dests = self.dep_gets_atom(source, atom);
        let mut i: usize = 0;
        while i < dests.len()
            invariant
                i <= dests.len(),
                dests@ == self.atom_dests(source, atom),
                forall|k: int| 0 <= k < i ==> dests@[k] != dest,
            decreases dests.len() - i,
        {
            if dests[i] == dest {
                assert(dests@[i as int] == dest);
                return true;
            }
            i = i + 1;
        }
        false
    }

    /// Whether `unit` may be isolated.
    pub fn allow_isolate(&self, unit: UnitId) -> (allowed: bool)
        ensures
            allowed == self.allows_isolate(unit),
    {
        unit < self.units.len() && self.units[unit].allow_isolate
    }

    /// The mode in which the failure jobs of `unit` are queued.
    pub fn on_failure_job_mode(&self, unit: UnitId) -> (mode: JobMode)
        ensures
            mode == self.failure_mode(unit),
    {
        if unit < self.units.len() {
            self.units[unit].on_failure_job_mode
        } else {
            JobMode::JobReplace
        }
    }
}

} // verus!
