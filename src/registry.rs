//! The registry: units and the records that belong to them, kept in durable
//! tables, with identifiers drawn from one shared counter.
//!
//! Every creating operation first checks its payload, then the unit it refers
//! to, and only then draws an identifier, so a rejected request leaves the
//! counter and every table as they were.
use vstd::prelude::*;
use crate::record::{
    expense_bytes, project_bytes, recruit_bytes, unit_bytes, vehicle_bytes, Expense, ExpenseView,
    Project, ProjectStatus, ProjectView, Recruit, RecruitView, TrainingStatus, Unit, UnitView,
    Vehicle, VehicleStatus, VehicleView,
};
use crate::store::{counter_value, is_listing, Regions, Table, Counter};
use crate::ledger::{
    all_expense_records, expense_of, expenses_belong, is_expense_record,
    lemma_expense_bytes_injective, key_space, lemma_share_of_expense, lemma_total_gap,
    share, total_below, unit_total,
};
use ic_stable_structures::DefaultMemoryImpl;

verus! {

/// Region of the identifier counter.
pub const COUNTER_REGION: u8 = 0;

/// Region of the unit table.
pub const UNIT_REGION: u8 = 10;

/// Region of the recruit table.
pub const RECRUIT_REGION: u8 = 11;

/// Region of the project table.
pub const PROJECT_REGION: u8 = 12;

/// Region of the vehicle table.
pub const VEHICLE_REGION: u8 = 13;

/// Region of the expense table.
pub const EXPENSE_REGION: u8 = 14;

/// Why an operation was refused.
#[derive(Clone, Copy, Debug, PartialEq, Eq, Structural)]
pub enum RegistryError {
    /// The request's own data breaks a rule: a required text is empty or an
    /// amount is not positive.
    InvalidPayload,
    /// The unit the request refers to does not exist.
    NotFound,
    /// Durable storage failed or holds bytes that are not a record.
    StorageFault,
}

pub struct CreateUnitPayload {
    pub name: String,
    pub location: String,
    pub contact: String,
    pub capacity: u64,
}

pub struct RegisterRecruitPayload {
    pub unit_id: u64,
    pub name: String,
    pub age: u64,
    pub gender: String,
    pub skills: Vec<String>,
}

/// `budget` is in hundredths of the currency unit.
pub struct CreateProjectPayload {
    pub unit_id: u64,
    pub name: String,
    pub description: String,
    pub budget: i64,
    pub start_date: u64,
    pub end_date: u64,
}

pub struct RegisterVehiclePayload {
    pub unit_id: u64,
    pub registration_number: String,
    pub model: String,
    pub capacity: u64,
}

/// `amount` is in hundredths of the currency unit.
pub struct RecordExpensePayload {
    pub unit_id: u64,
    pub category: String,
    pub amount: i64,
    pub description: String,
}

/// `id` is the identifier handed out when the counter goes from `before` to `after`.
pub open spec fn issues(before: u64, after: u64, id: u64) -> bool {
    before < u64::MAX && id == before + 1 && after == id
}

/// The counter, the five tables.
pub struct Registry {
    counter: Counter,
    units: Table,
    recruits: Table,
    projects: Table,
    vehicles: Table,
    expenses: Table,
}

impl Registry {
    /// The last identifier handed out (zero before the first).
    pub closed spec fn issued(&self) -> u64 {
        counter_value(self.counter)
    }

    pub closed spec fn units(&self) -> Map<u64, Seq<u8>> {
        self.units@
    }

    pub closed spec fn recruits(&self) -> Map<u64, Seq<u8>> {
        self.recruits@
    }

    pub closed spec fn projects(&self) -> Map<u64, Seq<u8>> {
        self.projects@
    }

    pub closed spec fn vehicles(&self) -> Map<u64, Seq<u8>> {
        self.vehicles@
    }

    pub closed spec fn expenses(&self) -> Map<u64, Seq<u8>> {
        self.expenses@
    }

    /// No stored record has an identifier the counter has not handed out yet,
    /// and every stored record of a child table is a record of a stored unit.
    pub open spec fn wf(&self) -> bool {
        &&& keys_at_most(self.units(), self.issued())
        &&& keys_at_most(self.recruits(), self.issued())
        &&& keys_at_most(self.projects(), self.issued())
        &&& keys_at_most(self.vehicles(), self.issued())
        &&& keys_at_most(self.expenses(), self.issued())
        &&& expenses_belong(self.expenses(), self.units())
        &&& recruits_belong(self.recruits(), self.units())
        &&& projects_belong(self.projects(), self.units())
        &&& vehicles_belong(self.vehicles(), self.units())
    }

    /// `self` and `o` hold the same tables.
    pub open spec fn same_tables(self, o: Registry) -> bool {
        &&& self.units() == o.units()
        &&& self.recruits() == o.recruits()
        &&& self.projects() == o.projects()
        &&& self.vehicles() == o.vehicles()
        &&& self.expenses() == o.expenses()
    }

    /// `self` and `o` hold the same counter and the same tables.
    pub open spec fn same_state(self, o: Registry) -> bool {
        self.issued() == o.issued() && self.same_tables(o)
    }

    /// Opens the registry kept in `memory`, with whatever it already holds.
    /// A memory backs one live registry at a time: a second registry on the
    /// same memory would write over the first's regions.
    /// Fails with `StorageFault` when the counter cannot be opened or the
    /// opened state breaks `wf` (see `from_parts`).
    pub fn init(memory: DefaultMemoryImpl) -> (r: Result<Registry, RegistryError>)
        ensures
            r matches Ok(g) ==> g.wf(),
            r is Err ==> r == Err::<Registry, RegistryError>(RegistryError::StorageFault),
    {
        let regions = Regions::init(memory);
        let counter = match regions.open_counter(COUNTER_REGION) {
            Some(c) => c,
            None => return Err(RegistryError::StorageFault),
        };
        Registry::from_parts(
            counter,
            regions.open_table(UNIT_REGION),
            regions.open_table(RECRUIT_REGION),
            regions.open_table(PROJECT_REGION),
            regions.open_table(VEHICLE_REGION),
            regions.open_table(EXPENSE_REGION),
        )
    }

    /// Puts opened storage together into a registry, which succeeds exactly when
    /// the result is well formed: no key beyond the counter, and every stored
    /// record a record of a stored unit.
    fn from_parts(
        counter: Counter,
        units: Table,
        recruits: Table,
        projects: Table,
        vehicles: Table,
        expenses: Table,
    ) -> (r: Result<Registry, RegistryError>)
        ensures
            r is Ok <==> {
                &&& keys_at_most(units@, counter_value(counter))
                &&& keys_at_most(recruits@, counter_value(counter))
                &&& keys_at_most(projects@, counter_value(counter))
                &&& keys_at_most(vehicles@, counter_value(counter))
                &&& keys_at_most(expenses@, counter_value(counter))
                &&& expenses_belong(expenses@, units@)
                &&& recruits_belong(recruits@, units@)
                &&& projects_belong(projects@, units@)
                &&& vehicles_belong(vehicles@, units@)
            },
            r matches Ok(g) ==> {
                &&& g.wf()
                &&& g.issued() == counter_value(counter)
                &&& g.units() == units@
                &&& g.recruits() == recruits@
                &&& g.projects() == projects@
                &&& g.vehicles() == vehicles@
                &&& g.expenses() == expenses@
            },
            r is Err ==> r == Err::<Registry, RegistryError>(RegistryError::StorageFault),
    {
        let issued = counter.get();
        if keys_within(&units, issued) && keys_within(&recruits, issued) && keys_within(
            &projects,
            issued,
        ) && keys_within(&vehicles, issued) && keys_within(&expenses, issued) && check_expenses(
            &expenses,
            &units,
        ) && check_recruits(&recruits, &units) && check_projects(&projects, &units)
            && check_vehicles(&vehicles, &units) {
            Ok(Registry { counter, units, recruits, projects, vehicles, expenses })
        } else {
            Err(RegistryError::StorageFault)
        }
    }

    /// Hands out the next identifier: one more than the last, starting at 1.
    /// Fails only when every `u64` has been handed out.
    pub fn next_id(&mut self) -> (r: Result<u64, RegistryError>)
        requires
            old(self).wf(),
        ensures
            final(self).wf(),
            final(self).same_tables(*old(self)),
            r matches Ok(id) ==> issues(old(self).issued(), final(self).issued(), id),
            old(self).issued() < u64::MAX ==> r == Ok::<u64, RegistryError>(
                (old(self).issued() + 1) as u64,
            ),
            old(self).issued() == u64::MAX ==> r == Err::<u64, RegistryError>(
                RegistryError::StorageFault,
            ) && final(self).issued() == old(self).issued(),
    {
        let current = self.counter.get();
        if current == u64::MAX {
            return Err(RegistryError::StorageFault);
        }
        self.counter.set(current + 1);
        proof {
            lemma_keys_raise(old(self).units(), current, self.issued());
            lemma_keys_raise(old(self).recruits(), current, self.issued());
            lemma_keys_raise(old(self).projects(), current, self.issued());
            lemma_keys_raise(old(self).vehicles(), current, self.issued());
            lemma_keys_raise(old(self).expenses(), current, self.issued());
        }
        Ok(current + 1)
    }

    /// Creates a unit. The name and the contact must not be empty.
    pub fn create_unit(&mut self, payload: CreateUnitPayload, now: u64) -> (r: Result<Unit, RegistryError>)
        requires
            old(self).wf(),
        ensures
            final(self).wf(),
            r matches Ok(x) ==> {
                &&& !(payload.name@.len() == 0 || payload.contact@.len() == 0)
                &&& issues(old(self).issued(), final(self).issued(), x.id)
                &&& x@ == (UnitView {
                    id: x.id,
                    name: payload.name@,
                    location: payload.location@,
                    contact: payload.contact@,
                    capacity: payload.capacity,
                    created_at: now,
                })
                &&& !old(self).units().contains_key(x.id)
                &&& final(self).units() == old(self).units().insert(x.id, unit_bytes(x@))
                &&& final(self).recruits() == old(self).recruits()
                &&& final(self).projects() == old(self).projects()
                &&& final(self).vehicles() == old(self).vehicles()
                &&& final(self).expenses() == old(self).expenses()
            },
            r is Err ==> final(self).same_state(*old(self)),
            r != Err::<Unit, RegistryError>(RegistryError::NotFound),
            r == Err::<Unit, RegistryError>(RegistryError::InvalidPayload) <==> payload.name@.len() == 0 || payload.contact@.len() == 0,
            !(payload.name@.len() == 0 || payload.contact@.len() == 0) && old(self).issued() == u64::MAX
                ==> r == Err::<Unit, RegistryError>(RegistryError::StorageFault),
            !(payload.name@.len() == 0 || payload.contact@.len() == 0) && old(self).issued() < u64::MAX
                ==> r is Ok,
    {
        if payload.name.as_str().is_empty() || payload.contact.as_str().is_empty() {
            return Err(RegistryError::InvalidPayload);
        }
        let ghost before = *self;
        let id = match self.next_id() {
            Ok(id) => id,
            Err(e) => return Err(e),
        };
        let x = Unit {
            id,
            name: payload.name,
            location: payload.location,
            contact: payload.contact,
            capacity: payload.capacity,
            created_at: now,
        };
        let bytes = x.to_bytes();
        self.units.insert(id, bytes);
        proof {
            lemma_keys_insert(before.units(), before.issued(), id, bytes@);
            lemma_keys_raise(before.recruits(), before.issued(), id);
            lemma_keys_raise(before.projects(), before.issued(), id);
            lemma_keys_raise(before.vehicles(), before.issued(), id);
            lemma_keys_raise(before.expenses(), before.issued(), id);
        }
        Ok(x)
    }

    /// Registers a recruit with a unit, in training status `Enrolled`. The name and
    /// the gender must not be empty.
    pub fn register_recruit(&mut self, payload: RegisterRecruitPayload, now: u64) -> (r: Result<Recruit, RegistryError>)
        requires
            old(self).wf(),
        ensures
            final(self).wf(),
            r matches Ok(x) ==> {
                &&& !(payload.name@.len() == 0 || payload.gender@.len() == 0) && old(self).units().contains_key(payload.unit_id)
                &&& issues(old(self).issued(), final(self).issued(), x.id)
                &&& x@ == (RecruitView {
                    id: x.id,
                    unit_id: payload.unit_id,
                    name: payload.name@,
                    age: payload.age,
                    gender: payload.gender@,
                    skills: payload.skills.deep_view(),
                    training_status: TrainingStatus::Enrolled,
                    created_at: now,
                })
                &&& !old(self).recruits().contains_key(x.id)
                &&& final(self).recruits() == old(self).recruits().insert(x.id, recruit_bytes(x@))
                &&& final(self).units() == old(self).units()
                &&& final(self).projects() == old(self).projects()
                &&& final(self).vehicles() == old(self).vehicles()
                &&& final(self).expenses() == old(self).expenses()
            },
            r is Err ==> final(self).same_state(*old(self)),
            r == Err::<Recruit, RegistryError>(RegistryError::InvalidPayload) <==> payload.name@.len() == 0 || payload.gender@.len() == 0,
            r == Err::<Recruit, RegistryError>(RegistryError::NotFound) <==> !(payload.name@.len() == 0 || payload.gender@.len() == 0)
                && !old(self).units().contains_key(payload.unit_id),
            !(payload.name@.len() == 0 || payload.gender@.len() == 0) && old(self).units().contains_key(payload.unit_id) && old(self).issued() == u64::MAX
                ==> r == Err::<Recruit, RegistryError>(RegistryError::StorageFault),
            !(payload.name@.len() == 0 || payload.gender@.len() == 0) && old(self).units().contains_key(payload.unit_id) && old(self).issued() < u64::MAX
                ==> r is Ok,
    {
        if payload.name.as_str().is_empty() || payload.gender.as_str().is_empty() {
            return Err(RegistryError::InvalidPayload);
        }
        if !self.units.contains(payload.unit_id) {
            return Err(RegistryError::NotFound);
        }
        let ghost before = *self;
        let id = match self.next_id() {
            Ok(id) => id,
            Err(e) => return Err(e),
        };
        let x = Recruit {
            id,
            unit_id: payload.unit_id,
            name: payload.name,
            age: payload.age,
            gender: payload.gender,
            skills: payload.skills,
            training_status: TrainingStatus::Enrolled,
            created_at: now,
        };
        let bytes = x.to_bytes();
        self.recruits.insert(id, bytes);
        proof {
            lemma_keys_insert(before.recruits(), before.issued(), id, bytes@);
            lemma_keys_raise(before.units(), before.issued(), id);
            lemma_keys_raise(before.projects(), before.issued(), id);
            lemma_keys_raise(before.vehicles(), before.issued(), id);
            lemma_keys_raise(before.expenses(), before.issued(), id);
        }
        Ok(x)
    }

    /// Creates a project of a unit, in status `Planned`. The name must not be empty
    /// and the budget must be positive.
    pub fn create_project(&mut self, payload: CreateProjectPayload, now: u64) -> (r: Result<Project, RegistryError>)
        requires
            old(self).wf(),
        ensures
            final(self).wf(),
            r matches Ok(x) ==> {
                &&& !(payload.name@.len() == 0 || payload.budget <= 0) && old(self).units().contains_key(payload.unit_id)
                &&& issues(old(self).issued(), final(self).issued(), x.id)
                &&& x@ == (ProjectView {
                    id: x.id,
                    unit_id: payload.unit_id,
                    name: payload.name@,
                    description: payload.description@,
                    budget: payload.budget as u64,
                    start_date: payload.start_date,
                    end_date: payload.end_date,
                    status: ProjectStatus::Planned,
                })
                &&& !old(self).projects().contains_key(x.id)
                &&& final(self).projects() == old(self).projects().insert(x.id, project_bytes(x@))
                &&& final(self).units() == old(self).units()
                &&& final(self).recruits() == old(self).recruits()
                &&& final(self).vehicles() == old(self).vehicles()
                &&& final(self).expenses() == old(self).expenses()
            },
            r is Err ==> final(self).same_state(*old(self)),
            r == Err::<Project, RegistryError>(RegistryError::InvalidPayload) <==> payload.name@.len() == 0 || payload.budget <= 0,
            r == Err::<Project, RegistryError>(RegistryError::NotFound) <==> !(payload.name@.len() == 0 || payload.budget <= 0)
                && !old(self).units().contains_key(payload.unit_id),
            !(payload.name@.len() == 0 || payload.budget <= 0) && old(self).units().contains_key(payload.unit_id) && old(self).issued() == u64::MAX
                ==> r == Err::<Project, RegistryError>(RegistryError::StorageFault),
            !(payload.name@.len() == 0 || payload.budget <= 0) && old(self).units().contains_key(payload.unit_id) && old(self).issued() < u64::MAX
                ==> r is Ok,
    {
        if payload.name.as_str().is_empty() || payload.budget <= 0 {
            return Err(RegistryError::InvalidPayload);
        }
        if !self.units.contains(payload.unit_id) {
            return Err(RegistryError::NotFound);
        }
        let ghost before = *self;
        let id = match self.next_id() {
            Ok(id) => id,
            Err(e) => return Err(e),
        };
        let x = Project {
            id,
            unit_id: payload.unit_id,
            name: payload.name,
            description: payload.description,
            budget: payload.budget as u64,
            start_date: payload.start_date,
            end_date: payload.end_date,
            status: ProjectStatus::Planned,
        };
        let bytes = x.to_bytes();
        self.projects.insert(id, bytes);
        proof {
            lemma_keys_insert(before.projects(), before.issued(), id, bytes@);
            lemma_keys_raise(before.units(), before.issued(), id);
            lemma_keys_raise(before.recruits(), before.issued(), id);
            lemma_keys_raise(before.vehicles(), before.issued(), id);
            lemma_keys_raise(before.expenses(), before.issued(), id);
        }
        Ok(x)
    }

    /// Registers a vehicle with a unit, in status `Available`. The registration
    /// number and the model must not be empty.
    pub fn register_vehicle(&mut self, payload: RegisterVehiclePayload, now: u64) -> (r: Result<Vehicle, RegistryError>)
        requires
            old(self).wf(),
        ensures
            final(self).wf(),
            r matches Ok(x) ==> {
                &&& !(payload.registration_number@.len() == 0 || payload.model@.len() == 0) && old(self).units().contains_key(payload.unit_id)
                &&& issues(old(self).issued(), final(self).issued(), x.id)
                &&& x@ == (VehicleView {
                    id: x.id,
                    unit_id: payload.unit_id,
                    registration_number: payload.registration_number@,
                    model: payload.model@,
                    capacity: payload.capacity,
                    status: VehicleStatus::Available,
                })
                &&& !old(self).vehicles().contains_key(x.id)
                &&& final(self).vehicles() == old(self).vehicles().insert(x.id, vehicle_bytes(x@))
                &&& final(self).units() == old(self).units()
                &&& final(self).recruits() == old(self).recruits()
                &&& final(self).projects() == old(self).projects()
                &&& final(self).expenses() == old(self).expenses()
            },
            r is Err ==> final(self).same_state(*old(self)),
            r == Err::<Vehicle, RegistryError>(RegistryError::InvalidPayload) <==> payload.registration_number@.len() == 0 || payload.model@.len() == 0,
            r == Err::<Vehicle, RegistryError>(RegistryError::NotFound) <==> !(payload.registration_number@.len() == 0 || payload.model@.len() == 0)
                && !old(self).units().contains_key(payload.unit_id),
            !(payload.registration_number@.len() == 0 || payload.model@.len() == 0) && old(self).units().contains_key(payload.unit_id) && old(self).issued() == u64::MAX
                ==> r == Err::<Vehicle, RegistryError>(RegistryError::StorageFault),
            !(payload.registration_number@.len() == 0 || payload.model@.len() == 0) && old(self).units().contains_key(payload.unit_id) && old(self).issued() < u64::MAX
                ==> r is Ok,
    {
        if payload.registration_number.as_str().is_empty() || payload.model.as_str().is_empty() {
            return Err(RegistryError::InvalidPayload);
        }
        if !self.units.contains(payload.unit_id) {
            return Err(RegistryError::NotFound);
        }
        let ghost before = *self;
        let id = match self.next_id() {
            Ok(id) => id,
            Err(e) => return Err(e),
        };
        let x = Vehicle {
            id,
            unit_id: payload.unit_id,
            registration_number: payload.registration_number,
            model: payload.model,
            capacity: payload.capacity,
            status: VehicleStatus::Available,
        };
        let bytes = x.to_bytes();
        self.vehicles.insert(id, bytes);
        proof {
            lemma_keys_insert(before.vehicles(), before.issued(), id, bytes@);
            lemma_keys_raise(before.units(), before.issued(), id);
            lemma_keys_raise(before.recruits(), before.issued(), id);
            lemma_keys_raise(before.projects(), before.issued(), id);
            lemma_keys_raise(before.expenses(), before.issued(), id);
        }
        Ok(x)
    }

    /// Records an expense of a unit, dated `now`. The amount must be positive.
    pub fn record_expense(&mut self, payload: RecordExpensePayload, now: u64) -> (r: Result<Expense, RegistryError>)
        requires
            old(self).wf(),
        ensures
            final(self).wf(),
            r matches Ok(x) ==> {
                &&& !(payload.amount <= 0) && old(self).units().contains_key(payload.unit_id)
                &&& issues(old(self).issued(), final(self).issued(), x.id)
                &&& x@ == (ExpenseView {
                    id: x.id,
                    unit_id: payload.unit_id,
                    category: payload.category@,
                    amount: payload.amount as u64,
                    description: payload.description@,
                    date: now,
                })
                &&& !old(self).expenses().contains_key(x.id)
                &&& final(self).expenses() == old(self).expenses().insert(x.id, expense_bytes(x@))
                &&& expense_bytes(x@).len() <= usize::MAX
                &&& final(self).units() == old(self).units()
                &&& final(self).recruits() == old(self).recruits()
                &&& final(self).projects() == old(self).projects()
                &&& final(self).vehicles() == old(self).vehicles()
            },
            r is Err ==> final(self).same_state(*old(self)),
            r == Err::<Expense, RegistryError>(RegistryError::InvalidPayload) <==> payload.amount <= 0,
            r == Err::<Expense, RegistryError>(RegistryError::NotFound) <==> !(payload.amount <= 0)
                && !old(self).units().contains_key(payload.unit_id),
            !(payload.amount <= 0) && old(self).units().contains_key(payload.unit_id) && old(self).issued() == u64::MAX
                ==> r == Err::<Expense, RegistryError>(RegistryError::StorageFault),
            !(payload.amount <= 0) && old(self).units().contains_key(payload.unit_id) && old(self).issued() < u64::MAX
                ==> r is Ok,
    {
        if payload.amount <= 0 {
            return Err(RegistryError::InvalidPayload);
        }
        if !self.units.contains(payload.unit_id) {
            return Err(RegistryError::NotFound);
        }
        let ghost before = *self;
        let id = match self.next_id() {
            Ok(id) => id,
            Err(e) => return Err(e),
        };
        let x = Expense {
            id,
            unit_id: payload.unit_id,
            category: payload.category,
            amount: payload.amount as u64,
            description: payload.description,
            date: now,
        };
        let bytes = x.to_bytes();
        self.expenses.insert(id, bytes);
        proof {
            assert(bytes@.len() == bytes.len());
            assert(is_expense_record(bytes@));
            lemma_expense_bytes_injective(expense_of(bytes@), x@);
            assert forall|q: u64| #[trigger] self.expenses().contains_key(q) implies is_expense_record(
                self.expenses()[q],
            ) && self.units().contains_key(expense_of(self.expenses()[q]).unit_id) by {
                if q != id {
                    assert(before.expenses().contains_key(q));
                }
            }
            lemma_keys_insert(before.expenses(), before.issued(), id, bytes@);
            lemma_keys_raise(before.units(), before.issued(), id);
            lemma_keys_raise(before.recruits(), before.issued(), id);
            lemma_keys_raise(before.projects(), before.issued(), id);
            lemma_keys_raise(before.vehicles(), before.issued(), id);
        }
        Ok(x)
    }

    /// The sum of the amounts of the expenses recorded for unit `unit_id`, in
    /// hundredths of the currency unit; zero for a unit with no expenses.
    pub fn total_expenses(&self, unit_id: u64) -> (r: Result<u128, RegistryError>)
        ensures
            r == Err::<u128, RegistryError>(RegistryError::NotFound) <==> !self.units().contains_key(
                unit_id,
            ),
            r == Err::<u128, RegistryError>(RegistryError::StorageFault) <==> self.units().contains_key(
                unit_id,
            ) && !all_expense_records(self.expenses()),
            r matches Ok(t) ==> t == unit_total(self.expenses(), unit_id),
            r is Err ==> r == Err::<u128, RegistryError>(RegistryError::NotFound) || r == Err::<
                u128,
                RegistryError,
            >(RegistryError::StorageFault),
            self.units().contains_key(unit_id) && all_expense_records(self.expenses()) ==> r is Ok,
            self.wf() && self.units().contains_key(unit_id) ==> r is Ok,
    {
        if !self.units.contains(unit_id) {
            return Err(RegistryError::NotFound);
        }
        let entries = self.expenses.entries();
        let ghost m = self.expenses();
        let ghost listing = entries.deep_view();
        let mut total: u128 = 0;
        let mut i: usize = 0;
        while i < entries.len()
            invariant
                self.units().contains_key(unit_id),
                m == self.expenses(),
                listing == entries.deep_view(),
                is_listing(listing, m),
                i <= entries.len(),
                total == total_below(m, unit_id, listed_below(listing, i as int)),
                total <= i * 0xffff_ffff_ffff_ffffu128,
                forall|j: int| 0 <= j < i ==> is_expense_record(#[trigger] listing[j].1),
                forall|k: u64|
                    #[trigger] m.contains_key(k) && k < listed_below(listing, i as int) ==> exists|
                        j: int,
                    | 0 <= j < i && listing[j].0 == k,
            decreases entries.len() - i,
        {
            let k = entries[i].0;
            let bytes = &entries[i].1;
            proof {
                assert(bytes@.len() == bytes.len());
                assert(bytes.deep_view() =~= bytes@);
                assert(listing[i as int].1 == bytes@);
                assert(m.contains_key(k));
            }
            let amount = match Expense::from_bytes(bytes.as_slice()) {
                Some(x) => {
                    proof {
                        lemma_share_of_expense(x@, unit_id);
                    }
                    if x.unit_id == unit_id {
                        x.amount
                    } else {
                        0
                    }
                },
                None => {
                    proof {
                        assert(!is_expense_record(m[k]));
                    }
                    return Err(RegistryError::StorageFault);
                },
            };
            proof {
                let lo = listed_below(listing, i as int);
                assert forall|q: u64| lo <= q < k implies !#[trigger] m.contains_key(q) by {
                    if m.contains_key(q) {
                        let j = choose|j: int| 0 <= j < listing.len() && listing[j].0 == q;
                        if j < i {
                            assert(listing[j].0 < lo) by {
                                assert(listing[j].0 <= listing[i - 1].0);
                            }
                        }
                    }
                }
                lemma_total_gap(m, unit_id, lo, k as nat);
                assert(total_below(m, unit_id, (k + 1) as nat) == total_below(m, unit_id, k as nat)
                    + share(m[k], unit_id));
                assert(total + amount <= (i + 1) * 0xffff_ffff_ffff_ffffu128) by (nonlinear_arith)
                    requires
                        total <= i * 0xffff_ffff_ffff_ffffu128,
                        amount <= 0xffff_ffff_ffff_ffffu64,
                ;
                assert forall|q: u64|
                    #[trigger] m.contains_key(q) && q < listed_below(listing, i + 1) implies exists|
                        j: int,
                    | 0 <= j < i + 1 && listing[j].0 == q by {
                    if q < lo {
                    } else if q == k {
                        assert(listing[i as int].0 == q);
                    } else {
                        assert(lo <= q < k);
                    }
                }
            }
            total = total + amount as u128;
            i = i + 1;
        }
        proof {
            let lo = listed_below(listing, i as int);
            assert forall|q: u64| lo <= q < key_space() implies !#[trigger] m.contains_key(q) by {
                if m.contains_key(q) {
                    let j = choose|j: int| 0 <= j < listing.len() && listing[j].0 == q;
                    assert(listing[j].0 <= listing[i - 1].0);
                }
            }
            lemma_total_gap(m, unit_id, lo, key_space());
            assert forall|q: u64| #[trigger] m.contains_key(q) implies is_expense_record(m[q]) by {
                let j = choose|j: int| 0 <= j < listing.len() && listing[j].0 == q;
                assert(is_expense_record(listing[j].1));
            }
        }
        Ok(total)
    }

    /// The unit stored under `id`: `Ok(None)` when there is none, and
    /// `StorageFault` when the stored bytes are not a unit.
    pub fn get_unit(&self, id: u64) -> (r: Result<Option<Unit>, RegistryError>)
        ensures
            r matches Ok(None) <==> !self.units().contains_key(id),
            r matches Ok(Some(x)) ==> self.units().contains_key(id) && unit_bytes(x@) == self.units()[id],
            forall|v: UnitView|
                self.units().contains_key(id) && #[trigger] unit_bytes(v) == self.units()[id] ==> (r matches Ok(
                    Some(x),
                ) && x@ == v),
            r is Err ==> r == Err::<Option<Unit>, RegistryError>(RegistryError::StorageFault),
    {
        match self.units.get(id) {
            None => Ok(None),
            Some(bytes) => match Unit::from_bytes(bytes.as_slice()) {
                Some(x) => Ok(Some(x)),
                None => Err(RegistryError::StorageFault),
            },
        }
    }

    /// The recruit stored under `id`: `Ok(None)` when there is none, and
    /// `StorageFault` when the stored bytes are not a recruit.
    pub fn get_recruit(&self, id: u64) -> (r: Result<Option<Recruit>, RegistryError>)
        ensures
            r matches Ok(None) <==> !self.recruits().contains_key(id),
            r matches Ok(Some(x)) ==> self.recruits().contains_key(id) && recruit_bytes(x@) == self.recruits()[id],
            forall|v: RecruitView|
                self.recruits().contains_key(id) && #[trigger] recruit_bytes(v) == self.recruits()[id] ==> (r matches Ok(
                    Some(x),
                ) && x@ == v),
            r is Err ==> r == Err::<Option<Recruit>, RegistryError>(RegistryError::StorageFault),
    {
        match self.recruits.get(id) {
            None => Ok(None),
            Some(bytes) => match Recruit::from_bytes(bytes.as_slice()) {
                Some(x) => Ok(Some(x)),
                None => Err(RegistryError::StorageFault),
            },
        }
    }

    /// The project stored under `id`: `Ok(None)` when there is none, and
    /// `StorageFault` when the stored bytes are not a project.
    pub fn get_project(&self, id: u64) -> (r: Result<Option<Project>, RegistryError>)
        ensures
            r matches Ok(None) <==> !self.projects().contains_key(id),
            r matches Ok(Some(x)) ==> self.projects().contains_key(id) && project_bytes(x@) == self.projects()[id],
            forall|v: ProjectView|
                self.projects().contains_key(id) && #[trigger] project_bytes(v) == self.projects()[id] ==> (r matches Ok(
                    Some(x),
                ) && x@ == v),
            r is Err ==> r == Err::<Option<Project>, RegistryError>(RegistryError::StorageFault),
    {
        match self.projects.get(id) {
            None => Ok(None),
            Some(bytes) => match Project::from_bytes(bytes.as_slice()) {
                Some(x) => Ok(Some(x)),
                None => Err(RegistryError::StorageFault),
            },
        }
    }

    /// The vehicle stored under `id`: `Ok(None)` when there is none, and
    /// `StorageFault` when the stored bytes are not a vehicle.
    pub fn get_vehicle(&self, id: u64) -> (r: Result<Option<Vehicle>, RegistryError>)
        ensures
            r matches Ok(None) <==> !self.vehicles().contains_key(id),
            r matches Ok(Some(x)) ==> self.vehicles().contains_key(id) && vehicle_bytes(x@) == self.vehicles()[id],
            forall|v: VehicleView|
                self.vehicles().contains_key(id) && #[trigger] vehicle_bytes(v) == self.vehicles()[id] ==> (r matches Ok(
                    Some(x),
                ) && x@ == v),
            r is Err ==> r == Err::<Option<Vehicle>, RegistryError>(RegistryError::StorageFault),
    {
        match self.vehicles.get(id) {
            None => Ok(None),
            Some(bytes) => match Vehicle::from_bytes(bytes.as_slice()) {
                Some(x) => Ok(Some(x)),
                None => Err(RegistryError::StorageFault),
            },
        }
    }

    /// The expense stored under `id`: `Ok(None)` when there is none, and
    /// `StorageFault` when the stored bytes are not a expense.
    pub fn get_expense(&self, id: u64) -> (r: Result<Option<Expense>, RegistryError>)
        ensures
            r matches Ok(None) <==> !self.expenses().contains_key(id),
            r matches Ok(Some(x)) ==> self.expenses().contains_key(id) && expense_bytes(x@) == self.expenses()[id],
            forall|v: ExpenseView|
                self.expenses().contains_key(id) && #[trigger] expense_bytes(v) == self.expenses()[id] ==> (r matches Ok(
                    Some(x),
                ) && x@ == v),
            r is Err ==> r == Err::<Option<Expense>, RegistryError>(RegistryError::StorageFault),
    {
        match self.expenses.get(id) {
            None => Ok(None),
            Some(bytes) => match Expense::from_bytes(bytes.as_slice()) {
                Some(x) => Ok(Some(x)),
                None => Err(RegistryError::StorageFault),
            },
        }
    }

    /// Number of stored units.
    pub fn unit_count(&self) -> (r: u64)
        ensures
            r == self.units().dom().len(),
    {
        self.units.len()
    }

    /// Number of stored recruits.
    pub fn recruit_count(&self) -> (r: u64)
        ensures
            r == self.recruits().dom().len(),
    {
        self.recruits.len()
    }

    /// Number of stored projects.
    pub fn project_count(&self) -> (r: u64)
        ensures
            r == self.projects().dom().len(),
    {
        self.projects.len()
    }

    /// Number of stored vehicles.
    pub fn vehicle_count(&self) -> (r: u64)
        ensures
            r == self.vehicles().dom().len(),
    {
        self.vehicles.len()
    }

    /// Number of stored expenses.
    pub fn expense_count(&self) -> (r: u64)
        ensures
            r == self.expenses().dom().len(),
    {
        self.expenses.len()
    }

    /// Whether a unit with identifier `id` exists.
    pub fn unit_exists(&self, id: u64) -> (r: bool)
        ensures
            r == self.units().contains_key(id),
    {
        self.units.contains(id)
    }
}

/// Identifiers drawn one after another from a fresh counter are 1, 2, ..., n,
/// with no gap and no repeat: `counts` are the counter's values between the
/// draws, starting at zero, and `ids` what the draws handed out.
pub proof fn lemma_ids_in_sequence(counts: Seq<u64>, ids: Seq<u64>)
    requires
        counts.len() == ids.len() + 1,
        counts[0] == 0,
        forall|i: int| 0 <= i < ids.len() ==> issues(counts[i], counts[i + 1], #[trigger] ids[i]),
    ensures
        forall|i: int| 0 <= i < ids.len() ==> #[trigger] ids[i] == i + 1,
    decreases ids.len(),
{
    if ids.len() > 0 {
        let n = ids.len() - 1;
        lemma_ids_in_sequence(counts.take(n + 1), ids.take(n));
        assert forall|i: int| 0 <= i < ids.len() implies #[trigger] ids[i] == i + 1 by {
            if i < n {
                assert(ids.take(n)[i] == ids[i]);
            } else {
                assert(issues(counts[n], counts[n + 1], ids[n]));
                if n > 0 {
                    assert(ids.take(n)[n - 1] == ids[n - 1]);
                    assert(issues(counts[n - 1], counts[n], ids[n - 1]));
                }
            }
        }
    }
}

/// Every entry of `m` is the stored form of a recruit whose unit is a key of `units`.
pub open spec fn recruits_belong(m: Map<u64, Seq<u8>>, units: Map<u64, Seq<u8>>) -> bool {
    forall|k: u64|
        #[trigger] m.contains_key(k) ==> exists|v: RecruitView|
            #[trigger] recruit_bytes(v) == m[k] && units.contains_key(v.unit_id)
}

/// Every entry of `m` is the stored form of a project whose unit is a key of `units`.
pub open spec fn projects_belong(m: Map<u64, Seq<u8>>, units: Map<u64, Seq<u8>>) -> bool {
    forall|k: u64|
        #[trigger] m.contains_key(k) ==> exists|v: ProjectView|
            #[trigger] project_bytes(v) == m[k] && units.contains_key(v.unit_id)
}

/// Every entry of `m` is the stored form of a vehicle whose unit is a key of `units`.
pub open spec fn vehicles_belong(m: Map<u64, Seq<u8>>, units: Map<u64, Seq<u8>>) -> bool {
    forall|k: u64|
        #[trigger] m.contains_key(k) ==> exists|v: VehicleView|
            #[trigger] vehicle_bytes(v) == m[k] && units.contains_key(v.unit_id)
}

/// One more than the key of the `i`-th entry of `s` counted from one, or zero
/// when `i` is zero: every entry before the `i`-th has its key below it.
pub open spec fn listed_below(s: Seq<(u64, Seq<u8>)>, i: int) -> nat {
    if i <= 0 {
        0
    } else {
        (s[i - 1].0 + 1) as nat
    }
}

/// Every key of `m` is at most `bound`.
pub open spec fn keys_at_most(m: Map<u64, Seq<u8>>, bound: u64) -> bool {
    forall|k: u64| #[trigger] m.contains_key(k) ==> k <= bound
}

proof fn lemma_keys_raise(m: Map<u64, Seq<u8>>, a: u64, b: u64)
    requires
        keys_at_most(m, a),
        a <= b,
    ensures
        keys_at_most(m, b),
{
}

/// Storing under a fresh identifier `b` above every key keeps the keys at most `b`.
proof fn lemma_keys_insert(m: Map<u64, Seq<u8>>, a: u64, b: u64, v: Seq<u8>)
    requires
        keys_at_most(m, a),
        a < b,
    ensures
        !m.contains_key(b),
        keys_at_most(m.insert(b, v), b),
{
}

/// Whether every entry of `t` is a recruit of a unit in `units`.
fn check_recruits(t: &Table, units: &Table) -> (r: bool)
    ensures
        r == recruits_belong(t@, units@),
{
    let entries = t.entries();
    let ghost m = t@;
    let ghost listing = entries.deep_view();
    let mut i: usize = 0;
    while i < entries.len()
        invariant
            m == t@,
            listing == entries.deep_view(),
            is_listing(listing, m),
            i <= entries.len(),
            forall|j: int|
                0 <= j < i ==> exists|v: RecruitView|
                    #[trigger] recruit_bytes(v) == #[trigger] listing[j].1 && units@.contains_key(v.unit_id),
        decreases entries.len() - i,
    {
        let k = entries[i].0;
        let bytes = &entries[i].1;
        proof {
            assert(bytes.deep_view() =~= bytes@);
            assert(listing[i as int].1 == bytes@);
            assert(listing[i as int].0 == k);
            assert(m.contains_key(k));
        }
        match Recruit::from_bytes(bytes.as_slice()) {
            Some(x) => {
                if !units.contains(x.unit_id) {
                    return false;
                }
                proof {
                    assert(recruit_bytes(x@) == listing[i as int].1);
                }
            },
            None => {
                return false;
            },
        }
        i = i + 1;
    }
    proof {
        assert forall|q: u64| #[trigger] m.contains_key(q) implies exists|v: RecruitView|
            #[trigger] recruit_bytes(v) == m[q] && units@.contains_key(v.unit_id) by {
            let j = choose|j: int| 0 <= j < listing.len() && listing[j].0 == q;
            assert(exists|v: RecruitView|
                #[trigger] recruit_bytes(v) == listing[j].1 && units@.contains_key(v.unit_id));
        }
    }
    true
}

/// Whether every entry of `t` is a project of a unit in `units`.
fn check_projects(t: &Table, units: &Table) -> (r: bool)
    ensures
        r == projects_belong(t@, units@),
{
    let entries = t.entries();
    let ghost m = t@;
    let ghost listing = entries.deep_view();
    let mut i: usize = 0;
    while i < entries.len()
        invariant
            m == t@,
            listing == entries.deep_view(),
            is_listing(listing, m),
            i <= entries.len(),
            forall|j: int|
                0 <= j < i ==> exists|v: ProjectView|
                    #[trigger] project_bytes(v) == #[trigger] listing[j].1 && units@.contains_key(v.unit_id),
        decreases entries.len() - i,
    {
        let k = entries[i].0;
        let bytes = &entries[i].1;
        proof {
            assert(bytes.deep_view() =~= bytes@);
            assert(listing[i as int].1 == bytes@);
            assert(listing[i as int].0 == k);
            assert(m.contains_key(k));
        }
        match Project::from_bytes(bytes.as_slice()) {
            Some(x) => {
                if !units.contains(x.unit_id) {
                    return false;
                }
                proof {
                    assert(project_bytes(x@) == listing[i as int].1);
                }
            },
            None => {
                return false;
            },
        }
        i = i + 1;
    }
    proof {
        assert forall|q: u64| #[trigger] m.contains_key(q) implies exists|v: ProjectView|
            #[trigger] project_bytes(v) == m[q] && units@.contains_key(v.unit_id) by {
            let j = choose|j: int| 0 <= j < listing.len() && listing[j].0 == q;
            assert(exists|v: ProjectView|
                #[trigger] project_bytes(v) == listing[j].1 && units@.contains_key(v.unit_id));
        }
    }
    true
}

/// Whether every entry of `t` is a vehicle of a unit in `units`.
fn check_vehicles(t: &Table, units: &Table) -> (r: bool)
    ensures
        r == vehicles_belong(t@, units@),
{
    let entries = t.entries();
    let ghost m = t@;
    let ghost listing = entries.deep_view();
    let mut i: usize = 0;
    while i < entries.len()
        invariant
            m == t@,
            listing == entries.deep_view(),
            is_listing(listing, m),
            i <= entries.len(),
            forall|j: int|
                0 <= j < i ==> exists|v: VehicleView|
                    #[trigger] vehicle_bytes(v) == #[trigger] listing[j].1 && units@.contains_key(v.unit_id),
        decreases entries.len() - i,
    {
        let k = entries[i].0;
        let bytes = &entries[i].1;
        proof {
            assert(bytes.deep_view() =~= bytes@);
            assert(listing[i as int].1 == bytes@);
            assert(listing[i as int].0 == k);
            assert(m.contains_key(k));
        }
        match Vehicle::from_bytes(bytes.as_slice()) {
            Some(x) => {
                if !units.contains(x.unit_id) {
                    return false;
                }
                proof {
                    assert(vehicle_bytes(x@) == listing[i as int].1);
                }
            },
            None => {
                return false;
            },
        }
        i = i + 1;
    }
    proof {
        assert forall|q: u64| #[trigger] m.contains_key(q) implies exists|v: VehicleView|
            #[trigger] vehicle_bytes(v) == m[q] && units@.contains_key(v.unit_id) by {
            let j = choose|j: int| 0 <= j < listing.len() && listing[j].0 == q;
            assert(exists|v: VehicleView|
                #[trigger] vehicle_bytes(v) == listing[j].1 && units@.contains_key(v.unit_id));
        }
    }
    true
}

/// Whether every entry of `expenses` is an expense of a unit in `units`.
fn check_expenses(expenses: &Table, units: &Table) -> (r: bool)
    ensures
        r == expenses_belong(expenses@, units@),
{
    let entries = expenses.entries();
    let ghost m = expenses@;
    let ghost listing = entries.deep_view();
    let mut i: usize = 0;
    while i < entries.len()
        invariant
            m == expenses@,
            listing == entries.deep_view(),
            is_listing(listing, m),
            i <= entries.len(),
            forall|j: int|
                0 <= j < i ==> is_expense_record(#[trigger] listing[j].1) && units@.contains_key(
                    expense_of(listing[j].1).unit_id,
                ),
        decreases entries.len() - i,
    {
        let k = entries[i].0;
        let bytes = &entries[i].1;
        proof {
            assert(bytes.deep_view() =~= bytes@);
            assert(listing[i as int].1 == bytes@);
            assert(listing[i as int].0 == k);
            assert(m.contains_key(k));
            assert(bytes@.len() == bytes.len());
        }
        match Expense::from_bytes(bytes.as_slice()) {
            Some(x) => {
                proof {
                    lemma_expense_bytes_injective(expense_of(bytes@), x@);
                }
                if !units.contains(x.unit_id) {
                    return false;
                }
            },
            None => {
                return false;
            },
        }
        i = i + 1;
    }
    proof {
        assert forall|q: u64| #[trigger] m.contains_key(q) implies is_expense_record(m[q])
            && units@.contains_key(expense_of(m[q]).unit_id) by {
            let j = choose|j: int| 0 <= j < listing.len() && listing[j].0 == q;
            assert(is_expense_record(listing[j].1));
        }
    }
    true
}

/// Whether every key of `t` is at most `bound`.
fn keys_within(t: &Table, bound: u64) -> (r: bool)
    ensures
        r == keys_at_most(t@, bound),
{
    match t.last_key() {
        None => {
            proof {
                assert forall|k: u64| #[trigger] t@.contains_key(k) implies k <= bound by {
                    assert(t@.dom().contains(k));
                }
            }
            true
        },
        Some(k) => {
            proof {
                assert(t@.contains_key(k));
            }
            k <= bound
        },
    }
}

} // verus!
