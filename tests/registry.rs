use ic_stable_structures::DefaultMemoryImpl;
use nys_registry::record::{
    Expense, ProjectStatus, Recruit, TrainingStatus, Unit, VehicleStatus,
};
use nys_registry::registry::{
    CreateProjectPayload, CreateUnitPayload, RecordExpensePayload, Registry, RegistryError,
    RegisterRecruitPayload, RegisterVehiclePayload,
};

fn unit_payload(name: &str, contact: &str) -> CreateUnitPayload {
    CreateUnitPayload {
        name: String::from(name),
        location: String::from("Nairobi"),
        contact: String::from(contact),
        capacity: 120,
    }
}

fn expense_payload(unit_id: u64, amount: i64) -> RecordExpensePayload {
    RecordExpensePayload {
        unit_id,
        category: String::from("Fuel"),
        amount,
        description: String::from("Trip"),
    }
}

fn recruit_payload(unit_id: u64) -> RegisterRecruitPayload {
    RegisterRecruitPayload {
        unit_id,
        name: String::from("Amina"),
        age: 19,
        gender: String::from("F"),
        skills: vec![String::from("carpentry"), String::from("first aid")],
    }
}

fn project_payload(unit_id: u64, budget: i64) -> CreateProjectPayload {
    CreateProjectPayload {
        unit_id,
        name: String::from("Road repair"),
        description: String::from("Murram road"),
        budget,
        start_date: 100,
        end_date: 200,
    }
}

fn vehicle_payload(unit_id: u64) -> RegisterVehiclePayload {
    RegisterVehiclePayload {
        unit_id,
        registration_number: String::from("KBC 123A"),
        model: String::from("Land Cruiser"),
        capacity: 9,
    }
}

fn fresh() -> (DefaultMemoryImpl, Registry) {
    let memory = DefaultMemoryImpl::default();
    let registry = Registry::init(memory.clone()).unwrap();
    (memory, registry)
}

#[test]
fn ids_run_from_one_across_restart() {
    let (memory, mut registry) = fresh();
    for expected in 1..=5u64 {
        assert_eq!(registry.next_id(), Ok(expected));
    }
    drop(registry);
    let mut reopened = Registry::init(memory.clone()).unwrap();
    assert_eq!(reopened.next_id(), Ok(6));
    assert_eq!(reopened.next_id(), Ok(7));
}

#[test]
fn ids_are_shared_by_all_tables() {
    let (_memory, mut registry) = fresh();
    let unit = registry.create_unit(unit_payload("Gilgil", "0700"), 1).unwrap();
    let recruit = registry.register_recruit(recruit_payload(unit.id), 2).unwrap();
    let expense = registry.record_expense(expense_payload(unit.id, 100), 3).unwrap();
    assert_eq!((unit.id, recruit.id, expense.id), (1, 2, 3));
}

#[test]
fn unknown_unit_is_not_found_and_changes_nothing() {
    let (_memory, mut registry) = fresh();
    let unit = registry.create_unit(unit_payload("Gilgil", "0700"), 1).unwrap();
    let missing = unit.id + 41;
    assert_eq!(registry.register_recruit(recruit_payload(missing), 2).err(), Some(RegistryError::NotFound));
    assert_eq!(registry.create_project(project_payload(missing, 5000), 2).err(), Some(RegistryError::NotFound));
    assert_eq!(registry.register_vehicle(vehicle_payload(missing), 2).err(), Some(RegistryError::NotFound));
    assert_eq!(registry.record_expense(expense_payload(missing, 100), 2).err(), Some(RegistryError::NotFound));
    assert_eq!(registry.unit_count(), 1);
    assert_eq!(registry.recruit_count(), 0);
    assert_eq!(registry.project_count(), 0);
    assert_eq!(registry.vehicle_count(), 0);
    assert_eq!(registry.expense_count(), 0);
    assert_eq!(registry.next_id(), Ok(2));
}

#[test]
fn empty_unit_name_or_contact_is_invalid() {
    let (_memory, mut registry) = fresh();
    assert_eq!(registry.create_unit(unit_payload("", "0700"), 1).err(), Some(RegistryError::InvalidPayload));
    assert_eq!(registry.create_unit(unit_payload("Gilgil", ""), 1).err(), Some(RegistryError::InvalidPayload));
    assert_eq!(registry.unit_count(), 0);
    assert_eq!(registry.next_id(), Ok(1));
}

#[test]
fn non_positive_expense_amount_is_invalid() {
    let (_memory, mut registry) = fresh();
    let unit = registry.create_unit(unit_payload("Gilgil", "0700"), 1).unwrap();
    assert_eq!(registry.record_expense(expense_payload(unit.id, 0), 2).err(), Some(RegistryError::InvalidPayload));
    assert_eq!(registry.record_expense(expense_payload(unit.id, -500), 2).err(), Some(RegistryError::InvalidPayload));
    // the payload is checked before the unit
    assert_eq!(registry.record_expense(expense_payload(99, 0), 2).err(), Some(RegistryError::InvalidPayload));
    assert_eq!(registry.expense_count(), 0);
}

#[test]
fn other_payload_rules() {
    let (_memory, mut registry) = fresh();
    let unit = registry.create_unit(unit_payload("Gilgil", "0700"), 1).unwrap();
    let mut no_gender = recruit_payload(unit.id);
    no_gender.gender = String::new();
    assert_eq!(registry.register_recruit(no_gender, 2).err(), Some(RegistryError::InvalidPayload));
    assert_eq!(registry.create_project(project_payload(unit.id, 0), 2).err(), Some(RegistryError::InvalidPayload));
    assert_eq!(registry.create_project(project_payload(unit.id, -1), 2).err(), Some(RegistryError::InvalidPayload));
    let mut no_model = vehicle_payload(unit.id);
    no_model.model = String::new();
    assert_eq!(registry.register_vehicle(no_model, 2).err(), Some(RegistryError::InvalidPayload));
    assert_eq!(registry.recruit_count() + registry.project_count() + registry.vehicle_count(), 0);
}

#[test]
fn totals_add_up_per_unit() {
    let (_memory, mut registry) = fresh();
    let u = registry.create_unit(unit_payload("Gilgil", "0700"), 1).unwrap();
    for amount in [1050i64, 2000, 525] {
        registry.record_expense(expense_payload(u.id, amount), 2).unwrap();
    }
    assert_eq!(registry.total_expenses(u.id), Ok(3575));
    let v = registry.create_unit(unit_payload("Naivasha", "0711"), 3).unwrap();
    assert_eq!(registry.total_expenses(v.id), Ok(0));
}

#[test]
fn total_of_unknown_unit_is_not_found() {
    let (_memory, registry) = fresh();
    assert_eq!(registry.total_expenses(7), Err(RegistryError::NotFound));
}

#[test]
fn new_records_get_default_statuses() {
    let (_memory, mut registry) = fresh();
    let unit = registry.create_unit(unit_payload("Gilgil", "0700"), 1).unwrap();
    let recruit = registry.register_recruit(recruit_payload(unit.id), 2).unwrap();
    assert_eq!(recruit.training_status, TrainingStatus::Enrolled);
    let project = registry.create_project(project_payload(unit.id, 250000), 3).unwrap();
    assert_eq!(project.status, ProjectStatus::Planned);
    assert_eq!(project.budget, 250000);
    let vehicle = registry.register_vehicle(vehicle_payload(unit.id), 4).unwrap();
    assert_eq!(vehicle.status, VehicleStatus::Available);
}

#[test]
fn expenses_stay_with_their_unit() {
    let (_memory, mut registry) = fresh();
    let a = registry.create_unit(unit_payload("Gilgil", "0700"), 1).unwrap();
    let b = registry.create_unit(unit_payload("Naivasha", "0711"), 1).unwrap();
    registry.record_expense(expense_payload(b.id, 300), 2).unwrap();
    let before = registry.total_expenses(b.id).unwrap();
    registry.record_expense(expense_payload(a.id, 10000), 2).unwrap();
    registry.record_expense(expense_payload(a.id, 20000), 2).unwrap();
    assert_eq!(registry.total_expenses(b.id), Ok(before));
    assert_eq!(registry.total_expenses(b.id), Ok(300));
    assert_eq!(registry.total_expenses(a.id), Ok(30000));
}

#[test]
fn unit_survives_restart() {
    let (memory, mut registry) = fresh();
    let unit = registry.create_unit(unit_payload("Gilgil", "0700 123"), 1_700_000_000).unwrap();
    drop(registry);
    let reopened = Registry::init(memory.clone()).unwrap();
    let back = reopened.get_unit(unit.id).unwrap().unwrap();
    assert_eq!(back.id, unit.id);
    assert_eq!(back.name, unit.name);
    assert_eq!(back.location, unit.location);
    assert_eq!(back.contact, unit.contact);
    assert_eq!(back.capacity, 120);
    assert_eq!(back.created_at, 1_700_000_000);
    assert_eq!(reopened.unit_count(), 1);
}

#[test]
fn records_read_back_from_tables() {
    let (_memory, mut registry) = fresh();
    let unit = registry.create_unit(unit_payload("Gilgil", "0700"), 1).unwrap();
    let recruit = registry.register_recruit(recruit_payload(unit.id), 2).unwrap();
    let back = registry.get_recruit(recruit.id).unwrap().unwrap();
    assert_eq!(back.skills, vec![String::from("carpentry"), String::from("first aid")]);
    assert_eq!(back.unit_id, unit.id);
    let project = registry.create_project(project_payload(unit.id, 900), 3).unwrap();
    let p = registry.get_project(project.id).unwrap().unwrap();
    assert_eq!((p.budget, p.start_date, p.end_date), (900, 100, 200));
    let vehicle = registry.register_vehicle(vehicle_payload(unit.id), 4).unwrap();
    let v = registry.get_vehicle(vehicle.id).unwrap().unwrap();
    assert_eq!(v.registration_number, "KBC 123A");
    let expense = registry.record_expense(expense_payload(unit.id, 75), 5).unwrap();
    let e = registry.get_expense(expense.id).unwrap().unwrap();
    assert_eq!((e.amount, e.date), (75, 5));
    assert!(registry.get_unit(recruit.id).unwrap().is_none());
    assert!(registry.get_unit(99).unwrap().is_none());
    assert!(registry.unit_exists(unit.id));
    assert!(!registry.unit_exists(99));
}

#[test]
fn codec_round_trips_text() {
    let recruit = Recruit {
        id: 3,
        unit_id: 1,
        name: String::from("Zoë Wanjirũ"),
        age: 21,
        gender: String::from("F"),
        skills: vec![],
        training_status: TrainingStatus::Completed,
        created_at: 9,
    };
    let bytes = recruit.to_bytes();
    // id, unit, name (8 + 13 bytes), age, gender (8 + 1), empty list, status, time
    assert_eq!(bytes.len(), 8 + 8 + 21 + 8 + 9 + 8 + 8 + 8);
    let back = Recruit::from_bytes(&bytes).unwrap();
    assert_eq!(back.name, "Zoë Wanjirũ");
    assert_eq!(back.training_status, TrainingStatus::Completed);
    assert!(back.skills.is_empty());
}

#[test]
fn codec_rejects_malformed_bytes() {
    let unit = Unit {
        id: 1,
        name: String::from("Gilgil"),
        location: String::new(),
        contact: String::from("0700"),
        capacity: 5,
        created_at: 0,
    };
    let mut bytes = unit.to_bytes();
    assert!(Unit::from_bytes(&bytes).is_some());
    bytes.push(0);
    assert!(Unit::from_bytes(&bytes).is_none());
    bytes.truncate(10);
    assert!(Unit::from_bytes(&bytes).is_none());
    assert!(Expense::from_bytes(&[]).is_none());
    // invalid UTF-8 in the name
    let mut bad = vec![1, 0, 0, 0, 0, 0, 0, 0, 1, 0, 0, 0, 0, 0, 0, 0, 0xff];
    bad.extend_from_slice(&[0; 8]);
    assert!(Unit::from_bytes(&bad).is_none());
    // a status code out of range
    let mut vehicle = nys_registry::record::Vehicle {
        id: 1,
        unit_id: 1,
        registration_number: String::from("A"),
        model: String::from("B"),
        capacity: 1,
        status: VehicleStatus::InUse,
    }
    .to_bytes();
    let last = vehicle.len() - 8;
    vehicle[last] = 7;
    assert!(nys_registry::record::Vehicle::from_bytes(&vehicle).is_none());
}
