//! The records kept by the registry and their stored byte layout.
use vstd::prelude::*;
use crate::codec::{push_text, push_text_list, push_word, read_text, read_text_list, read_word, tail, text, text_list, word};

verus! {

/// An administrative unit: the root record that every other record belongs to.
pub struct Unit {
    pub id: u64,
    pub name: String,
    pub location: String,
    pub contact: String,
    /// The largest number of recruits the unit can hold.
    pub capacity: u64,
    pub created_at: u64,
}

pub struct UnitView {
    pub id: u64,
    pub name: Seq<char>,
    pub location: Seq<char>,
    pub contact: Seq<char>,
    pub capacity: u64,
    pub created_at: u64,
}

impl View for Unit {
    type V = UnitView;

    open spec fn view(&self) -> UnitView {
        UnitView {
            id: self.id,
            name: self.name@,
            location: self.location@,
            contact: self.contact@,
            capacity: self.capacity,
            created_at: self.created_at,
        }
    }
}

pub open spec fn unit_bytes(u: UnitView) -> Seq<u8> {
    word(u.id) + (text(u.name) + (text(u.location) + (text(u.contact) + (word(u.capacity) + word(
        u.created_at,
    )))))
}

impl Unit {
    /// The stored form of the unit.
    pub fn to_bytes(&self) -> (r: Vec<u8>)
        ensures
            r@ == unit_bytes(self@),
    {
        let mut out: Vec<u8> = Vec::new();
        push_word(&mut out, self.id);
        push_text(&mut out, &self.name);
        push_text(&mut out, &self.location);
        push_text(&mut out, &self.contact);
        push_word(&mut out, self.capacity);
        push_word(&mut out, self.created_at);
        proof {
            assert(out@ =~= unit_bytes(self@));
        }
        out
    }

    /// Reads a unit back from its stored form; `None` when the bytes are not one.
    pub fn from_bytes(b: &[u8]) -> (r: Option<Unit>)
        ensures
            r matches Some(u) ==> unit_bytes(u@) == b@,
            forall|u: UnitView| #[trigger] unit_bytes(u) == b@ ==> (r matches Some(x) && x@ == u),
    {
        proof {
            assert(tail(b@, 0) =~= b@);
        }
        let (id, p) = match read_word(b, 0) {
            Some(x) => x,
            None => return None,
        };
        let (name, p) = match read_text(b, p) {
            Some(x) => x,
            None => return None,
        };
        let (location, p) = match read_text(b, p) {
            Some(x) => x,
            None => return None,
        };
        let (contact, p) = match read_text(b, p) {
            Some(x) => x,
            None => return None,
        };
        let (capacity, p) = match read_word(b, p) {
            Some(x) => x,
            None => return None,
        };
        proof {
            assert forall|u: UnitView| #[trigger] unit_bytes(u) == b@ implies tail(b@, p as int)
                == word(u.created_at) + Seq::<u8>::empty() by {
                assert(word(u.created_at) + Seq::<u8>::empty() =~= word(u.created_at));
            }
        }
        let (created_at, p) = match read_word(b, p) {
            Some(x) => x,
            None => return None,
        };
        if p != b.len() {
            return None;
        }
        let u = Unit { id, name, location, contact, capacity, created_at };
        proof {
            assert(tail(b@, p as int) =~= Seq::<u8>::empty());
            assert(unit_bytes(u@) =~= b@);
        }
        Some(u)
    }
}

/// Where a recruit stands in training.
#[derive(Clone, Copy, Debug, PartialEq, Eq, Structural)]
pub enum TrainingStatus {
    Enrolled,
    InProgress,
    Completed,
}

impl TrainingStatus {
    /// The number that stands for the status in a stored record.
    pub open spec fn spec_code(self) -> u64 {
        match self {
            TrainingStatus::Enrolled => 0,
            TrainingStatus::InProgress => 1,
            TrainingStatus::Completed => 2,
        }
    }

    pub fn code(&self) -> (r: u64)
        ensures
            r == self.spec_code(),
    {
        match self {
            TrainingStatus::Enrolled => 0,
            TrainingStatus::InProgress => 1,
            TrainingStatus::Completed => 2,
        }
    }

    pub fn from_code(c: u64) -> (r: Option<TrainingStatus>)
        ensures
            r matches Some(s) ==> s.spec_code() == c,
            forall|s: TrainingStatus| #[trigger] s.spec_code() == c ==> r == Some(s),
    {
        match c {
            0 => Some(TrainingStatus::Enrolled),
            1 => Some(TrainingStatus::InProgress),
            2 => Some(TrainingStatus::Completed),
            _ => None,
        }
    }
}

/// Where a project stands.
#[derive(Clone, Copy, Debug, PartialEq, Eq, Structural)]
pub enum ProjectStatus {
    Planned,
    Ongoing,
    Completed,
}

impl ProjectStatus {
    /// The number that stands for the status in a stored record.
    pub open spec fn spec_code(self) -> u64 {
        match self {
            ProjectStatus::Planned => 0,
            ProjectStatus::Ongoing => 1,
            ProjectStatus::Completed => 2,
        }
    }

    pub fn code(&self) -> (r: u64)
        ensures
            r == self.spec_code(),
    {
        match self {
            ProjectStatus::Planned => 0,
            ProjectStatus::Ongoing => 1,
            ProjectStatus::Completed => 2,
        }
    }

    pub fn from_code(c: u64) -> (r: Option<ProjectStatus>)
        ensures
            r matches Some(s) ==> s.spec_code() == c,
            forall|s: ProjectStatus| #[trigger] s.spec_code() == c ==> r == Some(s),
    {
        match c {
            0 => Some(ProjectStatus::Planned),
            1 => Some(ProjectStatus::Ongoing),
            2 => Some(ProjectStatus::Completed),
            _ => None,
        }
    }
}

/// Whether a vehicle can be used.
#[derive(Clone, Copy, Debug, PartialEq, Eq, Structural)]
pub enum VehicleStatus {
    Available,
    InUse,
    UnderMaintenance,
}

impl VehicleStatus {
    /// The number that stands for the status in a stored record.
    pub open spec fn spec_code(self) -> u64 {
        match self {
            VehicleStatus::Available => 0,
            VehicleStatus::InUse => 1,
            VehicleStatus::UnderMaintenance => 2,
        }
    }

    pub fn code(&self) -> (r: u64)
        ensures
            r == self.spec_code(),
    {
        match self {
            VehicleStatus::Available => 0,
            VehicleStatus::InUse => 1,
            VehicleStatus::UnderMaintenance => 2,
        }
    }

    pub fn from_code(c: u64) -> (r: Option<VehicleStatus>)
        ensures
            r matches Some(s) ==> s.spec_code() == c,
            forall|s: VehicleStatus| #[trigger] s.spec_code() == c ==> r == Some(s),
    {
        match c {
            0 => Some(VehicleStatus::Available),
            1 => Some(VehicleStatus::InUse),
            2 => Some(VehicleStatus::UnderMaintenance),
            _ => None,
        }
    }
}

/// A person enrolled in a unit.
pub struct Recruit {
    pub id: u64,
    pub unit_id: u64,
    pub name: String,
    pub age: u64,
    pub gender: String,
    pub skills: Vec<String>,
    pub training_status: TrainingStatus,
    pub created_at: u64,
}

pub struct RecruitView {
    pub id: u64,
    pub unit_id: u64,
    pub name: Seq<char>,
    pub age: u64,
    pub gender: Seq<char>,
    pub skills: Seq<Seq<char>>,
    pub training_status: TrainingStatus,
    pub created_at: u64,
}

impl View for Recruit {
    type V = RecruitView;

    open spec fn view(&self) -> RecruitView {
        RecruitView {
            id: self.id,
            unit_id: self.unit_id,
            name: self.name@,
            age: self.age,
            gender: self.gender@,
            skills: self.skills.deep_view(),
            training_status: self.training_status,
            created_at: self.created_at,
        }
    }
}

pub open spec fn recruit_bytes(u: RecruitView) -> Seq<u8> {
    word(u.id) + (word(u.unit_id) + (text(u.name) + (word(u.age) + (text(u.gender) + (text_list(u.skills) + (word(u.training_status.spec_code()) + (word(u.created_at))))))))
}

impl Recruit {
    /// The stored form of the record.
    pub fn to_bytes(&self) -> (r: Vec<u8>)
        ensures
            r@ == recruit_bytes(self@),
    {
        let mut out: Vec<u8> = Vec::new();
        push_word(&mut out, self.id);
        push_word(&mut out, self.unit_id);
        push_text(&mut out, &self.name);
        push_word(&mut out, self.age);
        push_text(&mut out, &self.gender);
        push_text_list(&mut out, &self.skills);
        push_word(&mut out, self.training_status.code());
        push_word(&mut out, self.created_at);
        proof {
            assert(out@ =~= recruit_bytes(self@));
        }
        out
    }

    /// Reads the record back from its stored form; `None` when the bytes are not one.
    pub fn from_bytes(b: &[u8]) -> (r: Option<Recruit>)
        ensures
            r matches Some(x) ==> recruit_bytes(x@) == b@,
            forall|u: RecruitView| #[trigger] recruit_bytes(u) == b@ ==> (r matches Some(x) && x@ == u),
    {
        proof {
            assert(tail(b@, 0) =~= b@);
        }
        let p: usize = 0;
        let (id, p) = match read_word(b, p) {
            Some(x) => x,
            None => return None,
        };
        let (unit_id, p) = match read_word(b, p) {
            Some(x) => x,
            None => return None,
        };
        let (name, p) = match read_text(b, p) {
            Some(x) => x,
            None => return None,
        };
        let (age, p) = match read_word(b, p) {
            Some(x) => x,
            None => return None,
        };
        let (gender, p) = match read_text(b, p) {
            Some(x) => x,
            None => return None,
        };
        let (skills, p) = match read_text_list(b, p) {
            Some(x) => x,
            None => return None,
        };
        let (training_status_code, p) = match read_word(b, p) {
            Some(x) => x,
            None => return None,
        };
        let training_status = match TrainingStatus::from_code(training_status_code) {
            Some(x) => x,
            None => return None,
        };
        proof {
            assert forall|u: RecruitView| #[trigger] recruit_bytes(u) == b@ implies tail(b@, p as int)
                == word(u.created_at) + Seq::<u8>::empty() by {
                assert(word(u.created_at) + Seq::<u8>::empty() =~= word(u.created_at));
            }
        }
        let (created_at, p) = match read_word(b, p) {
            Some(x) => x,
            None => return None,
        };
        if p != b.len() {
            return None;
        }
        let r = Recruit { id, unit_id, name, age, gender, skills, training_status, created_at };
        proof {
            assert(tail(b@, p as int) =~= Seq::<u8>::empty());
            assert(recruit_bytes(r@) =~= b@);
        }
        Some(r)
    }
}

/// A project run by a unit. `budget` is in hundredths of the currency unit.
pub struct Project {
    pub id: u64,
    pub unit_id: u64,
    pub name: String,
    pub description: String,
    pub budget: u64,
    pub start_date: u64,
    pub end_date: u64,
    pub status: ProjectStatus,
}

pub struct ProjectView {
    pub id: u64,
    pub unit_id: u64,
    pub name: Seq<char>,
    pub description: Seq<char>,
    pub budget: u64,
    pub start_date: u64,
    pub end_date: u64,
    pub status: ProjectStatus,
}

impl View for Project {
    type V = ProjectView;

    open spec fn view(&self) -> ProjectView {
        ProjectView {
            id: self.id,
            unit_id: self.unit_id,
            name: self.name@,
            description: self.description@,
            budget: self.budget,
            start_date: self.start_date,
            end_date: self.end_date,
            status: self.status,
        }
    }
}

pub open spec fn project_bytes(u: ProjectView) -> Seq<u8> {
    word(u.id) + (word(u.unit_id) + (text(u.name) + (text(u.description) + (word(u.budget) + (word(u.start_date) + (word(u.end_date) + (word(u.status.spec_code()))))))))
}

impl Project {
    /// The stored form of the record.
    pub fn to_bytes(&self) -> (r: Vec<u8>)
        ensures
            r@ == project_bytes(self@),
    {
        let mut out: Vec<u8> = Vec::new();
        push_word(&mut out, self.id);
        push_word(&mut out, self.unit_id);
        push_text(&mut out, &self.name);
        push_text(&mut out, &self.description);
        push_word(&mut out, self.budget);
        push_word(&mut out, self.start_date);
        push_word(&mut out, self.end_date);
        push_word(&mut out, self.status.code());
        proof {
            assert(out@ =~= project_bytes(self@));
        }
        out
    }

    /// Reads the record back from its stored form; `None` when the bytes are not one.
    pub fn from_bytes(b: &[u8]) -> (r: Option<Project>)
        ensures
            r matches Some(x) ==> project_bytes(x@) == b@,
            forall|u: ProjectView| #[trigger] project_bytes(u) == b@ ==> (r matches Some(x) && x@ == u),
    {
        proof {
            assert(tail(b@, 0) =~= b@);
        }
        let p: usize = 0;
        let (id, p) = match read_word(b, p) {
            Some(x) => x,
            None => return None,
        };
        let (unit_id, p) = match read_word(b, p) {
            Some(x) => x,
            None => return None,
        };
        let (name, p) = match read_text(b, p) {
            Some(x) => x,
            None => return None,
        };
        let (description, p) = match read_text(b, p) {
            Some(x) => x,
            None => return None,
        };
        let (budget, p) = match read_word(b, p) {
            Some(x) => x,
            None => return None,
        };
        let (start_date, p) = match read_word(b, p) {
            Some(x) => x,
            None => return None,
        };
        let (end_date, p) = match read_word(b, p) {
            Some(x) => x,
            None => return None,
        };
        proof {
            assert forall|u: ProjectView| #[trigger] project_bytes(u) == b@ implies tail(b@, p as int)
                == word(u.status.spec_code()) + Seq::<u8>::empty() by {
                assert(word(u.status.spec_code()) + Seq::<u8>::empty() =~= word(u.status.spec_code()));
            }
        }
        let (status_code, p) = match read_word(b, p) {
            Some(x) => x,
            None => return None,
        };
        let status = match ProjectStatus::from_code(status_code) {
            Some(x) => x,
            None => return None,
        };
        if p != b.len() {
            return None;
        }
        let r = Project { id, unit_id, name, description, budget, start_date, end_date, status };
        proof {
            assert(tail(b@, p as int) =~= Seq::<u8>::empty());
            assert(project_bytes(r@) =~= b@);
        }
        Some(r)
    }
}

/// A vehicle held by a unit.
pub struct Vehicle {
    pub id: u64,
    pub unit_id: u64,
    pub registration_number: String,
    pub model: String,
    pub capacity: u64,
    pub status: VehicleStatus,
}

pub struct VehicleView {
    pub id: u64,
    pub unit_id: u64,
    pub registration_number: Seq<char>,
    pub model: Seq<char>,
    pub capacity: u64,
    pub status: VehicleStatus,
}

impl View for Vehicle {
    type V = VehicleView;

    open spec fn view(&self) -> VehicleView {
        VehicleView {
            id: self.id,
            unit_id: self.unit_id,
            registration_number: self.registration_number@,
            model: self.model@,
            capacity: self.capacity,
            status: self.status,
        }
    }
}

pub open spec fn vehicle_bytes(u: VehicleView) -> Seq<u8> {
    word(u.id) + (word(u.unit_id) + (text(u.registration_number) + (text(u.model) + (word(u.capacity) + (word(u.status.spec_code()))))))
}

impl Vehicle {
    /// The stored form of the record.
    pub fn to_bytes(&self) -> (r: Vec<u8>)
        ensures
            r@ == vehicle_bytes(self@),
    {
        let mut out: Vec<u8> = Vec::new();
        push_word(&mut out, self.id);
        push_word(&mut out, self.unit_id);
        push_text(&mut out, &self.registration_number);
        push_text(&mut out, &self.model);
        push_word(&mut out, self.capacity);
        push_word(&mut out, self.status.code());
        proof {
            assert(out@ =~= vehicle_bytes(self@));
        }
        out
    }

    /// Reads the record back from its stored form; `None` when the bytes are not one.
    pub fn from_bytes(b: &[u8]) -> (r: Option<Vehicle>)
        ensures
            r matches Some(x) ==> vehicle_bytes(x@) == b@,
            forall|u: VehicleView| #[trigger] vehicle_bytes(u) == b@ ==> (r matches Some(x) && x@ == u),
    {
        proof {
            assert(tail(b@, 0) =~= b@);
        }
        let p: usize = 0;
        let (id, p) = match read_word(b, p) {
            Some(x) => x,
            None => return None,
        };
        let (unit_id, p) = match read_word(b, p) {
            Some(x) => x,
            None => return None,
        };
        let (registration_number, p) = match read_text(b, p) {
            Some(x) => x,
            None => return None,
        };
        let (model, p) = match read_text(b, p) {
            Some(x) => x,
            None => return None,
        };
        let (capacity, p) = match read_word(b, p) {
            Some(x) => x,
            None => return None,
        };
        proof {
            assert forall|u: VehicleView| #[trigger] vehicle_bytes(u) == b@ implies tail(b@, p as int)
                == word(u.status.spec_code()) + Seq::<u8>::empty() by {
                assert(word(u.status.spec_code()) + Seq::<u8>::empty() =~= word(u.status.spec_code()));
            }
        }
        let (status_code, p) = match read_word(b, p) {
            Some(x) => x,
            None => return None,
        };
        let status = match VehicleStatus::from_code(status_code) {
            Some(x) => x,
            None => return None,
        };
        if p != b.len() {
            return None;
        }
        let r = Vehicle { id, unit_id, registration_number, model, capacity, status };
        proof {
            assert(tail(b@, p as int) =~= Seq::<u8>::empty());
            assert(vehicle_bytes(r@) =~= b@);
        }
        Some(r)
    }
}

/// Money spent by a unit. `amount` is in hundredths of the currency unit.
pub struct Expense {
    pub id: u64,
    pub unit_id: u64,
    pub category: String,
    pub amount: u64,
    pub description: String,
    pub date: u64,
}

pub struct ExpenseView {
    pub id: u64,
    pub unit_id: u64,
    pub category: Seq<char>,
    pub amount: u64,
    pub description: Seq<char>,
    pub date: u64,
}

impl View for Expense {
    type V = ExpenseView;

    open spec fn view(&self) -> ExpenseView {
        ExpenseView {
            id: self.id,
            unit_id: self.unit_id,
            category: self.category@,
            amount: self.amount,
            description: self.description@,
            date: self.date,
        }
    }
}

pub open spec fn expense_bytes(u: ExpenseView) -> Seq<u8> {
    word(u.id) + (word(u.unit_id) + (text(u.category) + (word(u.amount) + (text(u.description) + (word(u.date))))))
}

impl Expense {
    /// The stored form of the record.
    pub fn to_bytes(&self) -> (r: Vec<u8>)
        ensures
            r@ == expense_bytes(self@),
    {
        let mut out: Vec<u8> = Vec::new();
        push_word(&mut out, self.id);
        push_word(&mut out, self.unit_id);
        push_text(&mut out, &self.category);
        push_word(&mut out, self.amount);
        push_text(&mut out, &self.description);
        push_word(&mut out, self.date);
        proof {
            assert(out@ =~= expense_bytes(self@));
        }
        out
    }

    /// Reads the record back from its stored form; `None` when the bytes are not one.
    pub fn from_bytes(b: &[u8]) -> (r: Option<Expense>)
        ensures
            r matches Some(x) ==> expense_bytes(x@) == b@,
            forall|u: ExpenseView| #[trigger] expense_bytes(u) == b@ ==> (r matches Some(x) && x@ == u),
    {
        proof {
            assert(tail(b@, 0) =~= b@);
        }
        let p: usize = 0;
        let (id, p) = match read_word(b, p) {
            Some(x) => x,
            None => return None,
        };
        let (unit_id, p) = match read_word(b, p) {
            Some(x) => x,
            None => return None,
        };
        let (category, p) = match read_text(b, p) {
            Some(x) => x,
            None => return None,
        };
        let (amount, p) = match read_word(b, p) {
            Some(x) => x,
            None => return None,
        };
        let (description, p) = match read_text(b, p) {
            Some(x) => x,
            None => return None,
        };
        proof {
            assert forall|u: ExpenseView| #[trigger] expense_bytes(u) == b@ implies tail(b@, p as int)
                == word(u.date) + Seq::<u8>::empty() by {
                assert(word(u.date) + Seq::<u8>::empty() =~= word(u.date));
            }
        }
        let (date, p) = match read_word(b, p) {
            Some(x) => x,
            None => return None,
        };
        if p != b.len() {
            return None;
        }
        let r = Expense { id, unit_id, category, amount, description, date };
        proof {
            assert(tail(b@, p as int) =~= Seq::<u8>::empty());
            assert(expense_bytes(r@) =~= b@);
        }
        Some(r)
    }
}


} // verus!
