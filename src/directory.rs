//! The employee directory: records held under unique identifiers, created
//! after validation and served by identifier or as pages.

use vstd::prelude::*;
use std::collections::HashMap;
use uuid::Uuid;
use crate::laws::{lemma_appended_is_found, lemma_first_free_unique, lemma_ids_leave_a_gap};
use crate::date::{CalendarDate, ValidationError, birth_date_check, today, validate_birthday};

verus! {

broadcast use vstd::std_specs::hash::group_hash_axioms;

/// What a client submits to create an employee.
pub struct EmployeeData {
    pub first_name: String,
    pub last_name: String,
    pub year_of_birth: i32,
    pub month_of_birth: u32,
    pub day_of_birth: u32,
}

/// A stored employee record.
#[derive(Debug)]
pub struct Employee {
    pub id: u128,
    pub first_name: String,
    pub last_name: String,
    pub date_of_birth: CalendarDate,
}

/// A fuller profile of a person, with a handle, diplomas and whether they
/// have been onboarded.
pub struct UserDetails {
    pub handle: String,
    pub first_name: String,
    pub last_name: String,
    pub date_of_birth: CalendarDate,
    pub diplomas: Vec<String>,
    pub onboarded: bool,
}

/// Which part of the directory a listing asks for: records skipped first,
/// and the most records returned.
#[derive(Clone, Copy, Debug, Default)]
pub struct Pagination {
    pub offset: Option<usize>,
    pub limit: Option<usize>,
}

/// No record has the identifier asked for.
#[derive(Clone, Copy, Debug, PartialEq, Eq, Structural)]
pub struct NotFoundError;

/// An employee record as contracts see it.
pub struct EmployeeView {
    pub id: u128,
    pub first_name: Seq<char>,
    pub last_name: Seq<char>,
    pub date_of_birth: CalendarDate,
}

impl View for Employee {
    type V = EmployeeView;

    open spec fn view(&self) -> EmployeeView {
        EmployeeView {
            id: self.id,
            first_name: self.first_name@,
            last_name: self.last_name@,
            date_of_birth: self.date_of_birth,
        }
    }
}

impl Employee {
    /// A copy of this record, field by field.
    pub fn duplicate(&self) -> (r: Employee)
        ensures
            r@ == self@,
    {
        Employee {
            id: self.id,
            first_name: self.first_name.clone(),
            last_name: self.last_name.clone(),
            date_of_birth: self.date_of_birth,
        }
    }
}

/// No two records share an identifier.
pub open spec fn ids_distinct(s: Seq<EmployeeView>) -> bool {
    forall|i: int, j: int| 0 <= i < s.len() && 0 <= j < s.len() && i != j ==> s[i].id != s[j].id
}

pub open spec fn has_id(s: Seq<EmployeeView>, id: u128) -> bool {
    exists|i: int| 0 <= i < s.len() && s[i].id == id
}

pub open spec fn position_of(s: Seq<EmployeeView>, id: u128) -> int
    recommends
        has_id(s, id),
{
    choose|i: int| 0 <= i < s.len() && s[i].id == id
}

/// The record that has identifier `id`, if there is one.
pub open spec fn find(s: Seq<EmployeeView>, id: u128) -> Option<EmployeeView> {
    if has_id(s, id) {
        Some(s[position_of(s, id)])
    } else {
        None
    }
}

/// `c` is the smallest identifier that no record has.
pub open spec fn is_first_free(s: Seq<EmployeeView>, c: u128) -> bool {
    !has_id(s, c) && forall|d: u128| d < c ==> has_id(s, d)
}

/// The identifier a new record gets when `drawn` was drawn for it: `drawn`
/// itself when no record has it, else the smallest identifier that is free.
pub open spec fn issued_id(s: Seq<EmployeeView>, drawn: u128) -> u128 {
    if !has_id(s, drawn) {
        drawn
    } else {
        choose|c: u128| is_first_free(s, c)
    }
}

/// Identifiers are distinct and every birth date is a real date: what holds
/// of the records of every directory.
pub open spec fn well_formed(s: Seq<EmployeeView>) -> bool {
    &&& ids_distinct(s)
    &&& forall|i: int| 0 <= i < s.len() ==> (#[trigger] s[i]).date_of_birth.is_real()
}

/// The records left after skipping `offset` of them, at most `limit` in number.
pub open spec fn page(s: Seq<EmployeeView>, offset: int, limit: int) -> Seq<EmployeeView> {
    if offset >= s.len() {
        Seq::empty()
    } else if offset + limit < s.len() {
        s.subrange(offset, offset + limit)
    } else {
        s.subrange(offset, s.len() as int)
    }
}

/// A page as a listing asks for it: no offset skips nothing, no limit
/// bounds nothing.
pub open spec fn requested_page(s: Seq<EmployeeView>, offset: Option<usize>, limit: Option<usize>) -> Seq<
    EmployeeView,
> {
    let skip: int = match offset {
        Some(n) => n as int,
        None => 0,
    };
    let most: int = match limit {
        Some(n) => n as int,
        None => usize::MAX as int,
    };
    page(s, skip, most)
}

/// The record made from `data` under `id` once its birth date `dob` passed.
pub open spec fn record_of(data: &EmployeeData, id: u128, dob: CalendarDate) -> EmployeeView {
    EmployeeView {
        id,
        first_name: data.first_name@,
        last_name: data.last_name@,
        date_of_birth: dob,
    }
}

/// Relies on uuid's `Uuid::new_v4`, read as its 128-bit value: a random
/// identifier, of which nothing can be promised.
#[verifier::external_body]
fn fresh_id() -> (r: u128) {
    Uuid::new_v4().as_u128()
}

/// A random 128-bit identifier for a new record.
pub fn random_id() -> (r: u128) {
    fresh_id()
}

/// The records of `s`, as seen by contracts.
pub open spec fn views(s: Seq<Employee>) -> Seq<EmployeeView> {
    s.map_values(|e: Employee| e@)
}

pub open spec fn outcome_view(r: Result<Employee, ValidationError>) -> Result<EmployeeView, ValidationError> {
    match r {
        Ok(e) => Ok(e@),
        Err(why) => Err(why),
    }
}

/// Creating the employee `data` with the drawn identifier `id` on the date
/// `today`, in a directory that held `before`, gives `r` and leaves `after`:
/// when its birth date passes, the record is added last under the
/// identifier issued for it, and nothing changes otherwise.
pub open spec fn creation(
    before: Seq<EmployeeView>,
    data: &EmployeeData,
    today: CalendarDate,
    id: u128,
    r: Result<EmployeeView, ValidationError>,
    after: Seq<EmployeeView>,
) -> bool {
    match birth_date_check(data.year_of_birth, data.month_of_birth, data.day_of_birth, today) {
        Ok(dob) => {
            &&& r == Ok::<EmployeeView, ValidationError>(
                record_of(data, issued_id(before, id), dob),
            )
            &&& after == before.push(record_of(data, issued_id(before, id), dob))
        },
        Err(why) => {
            &&& r == Err::<EmployeeView, ValidationError>(why)
            &&& after == before
        },
    }
}

/// The records held in `records`, in the order of `order`.
pub open spec fn in_order(order: Seq<u128>, records: Map<u128, Employee>) -> Seq<EmployeeView> {
    order.map_values(|k: u128| records[k]@)
}

/// The directory service: the sole owner of the stored records, kept in a
/// map by identifier and listed in the order they were added.
pub struct Service {
    records: HashMap<u128, Employee>,
    order: Vec<u128>,
}

impl View for Service {
    type V = Seq<EmployeeView>;

    closed spec fn view(&self) -> Seq<EmployeeView> {
        in_order(self.order@, self.records@)
    }
}

impl Service {
    #[verifier::type_invariant]
    closed spec fn inv(self) -> bool {
        &&& well_formed(self@)
        &&& forall|i: int|
            0 <= i < self.order@.len() ==> {
                &&& self.records@.contains_key(#[trigger] self.order@[i])
                &&& self.records@[self.order@[i]].id == self.order@[i]
            }
        &&& forall|k: u128| #[trigger]
            self.records@.contains_key(k) ==> self.order@.contains(k)
    }

    /// An empty directory.
    pub fn new() -> (r: Box<Service>)
        ensures
            r@ == Seq::<EmployeeView>::empty(),
            well_formed(r@),
    {
        let s = Service { records: HashMap::new(), order: Vec::new() };
        assert(s@ =~= Seq::<EmployeeView>::empty());
        Box::new(s)
    }

    /// The number of records held.
    pub fn len(&self) -> (r: usize)
        ensures
            r == self@.len(),
            well_formed(self@),
    {
        proof {
            use_type_invariant(self);
        }
        self.order.len()
    }

    /// A record has identifier `id` exactly when the map holds it, and it is
    /// then the one found.
    proof fn lemma_held(&self, id: u128)
        requires
            self.inv(),
        ensures
            has_id(self@, id) == self.records@.contains_key(id),
            has_id(self@, id) ==> find(self@, id) == Some(self.records@[id]@),
    {
        if has_id(self@, id) {
            let p = position_of(self@, id);
            assert(self@[p].id == id);
            assert(self.records@[self.order@[p]].id == self.order@[p]);
        }
        if self.records@.contains_key(id) {
            let i = choose|i: int| 0 <= i < self.order@.len() && self.order@[i] == id;
            assert(self@[i].id == id);
        }
    }

    /// Whether some record has identifier `id`.
    fn holds(&self, id: u128) -> (r: bool)
        ensures
            r == has_id(self@, id),
    {
        proof {
            use_type_invariant(self);
            self.lemma_held(id);
        }
        self.records.contains_key(&id)
    }

    /// The record with identifier `id`, as a copy.
    pub fn get_employee(&self, id: u128) -> (r: Result<Employee, NotFoundError>)
        ensures
            match find(self@, id) {
                Some(e) => r is Ok && r->Ok_0@ == e,
                None => r == Err::<Employee, NotFoundError>(NotFoundError),
            },
            well_formed(self@),
    {
        proof {
            use_type_invariant(self);
            self.lemma_held(id);
        }
        match self.records.get(&id) {
            Some(e) => Ok(e.duplicate()),
            None => Err(NotFoundError),
        }
    }

    /// Copies of the records in the order they were added, skipping the
    /// first `offset` of them (none when absent) and returning at most
    /// `limit` (no bound when absent).
    pub fn list_employees(&self, offset: Option<usize>, limit: Option<usize>) -> (r: Vec<Employee>)
        ensures
            views(r@) == requested_page(self@, offset, limit),
            well_formed(self@),
    {
        proof {
            use_type_invariant(self);
        }
        let skip: usize = match offset {
            Some(n) => n,
            None => 0,
        };
        let most: usize = match limit {
            Some(n) => n,
            None => usize::MAX,
        };
        let len = self.order.len();
        let mut out: Vec<Employee> = Vec::new();
        if skip >= len {
            assert(views(out@) =~= Seq::<EmployeeView>::empty());
            return out;
        }
        let end: usize = if most < len - skip {
            skip + most
        } else {
            len
        };
        let mut i: usize = skip;
        while i < end
            invariant
                skip <= i <= end <= len,
                len == self.order@.len(),
                self@.len() == len,
                forall|k: int|
                    0 <= k < self.order@.len() ==> self.records@.contains_key(
                        #[trigger] self.order@[k],
                    ),
                views(out@) == self@.subrange(skip as int, i as int),
            decreases end - i,
        {
            let k = self.order[i];
            assert(self.records@.contains_key(self.order@[i as int]));
            match self.records.get(&k) {
                Some(e) => {
                    let e = e.duplicate();
                    assert(self@[i as int] == self.records@[k]@);
                    let ghost prev = out@;
                    out.push(e);
                    proof {
                        let got = views(out@);
                        let want = self@.subrange(skip as int, i + 1);
                        assert(views(prev) == self@.subrange(skip as int, i as int));
                        assert(views(prev).len() == prev.len());
                        assert forall|j: int| 0 <= j < got.len() implies got[j] == want[j] by {
                            if j < got.len() - 1 {
                                assert(got[j] == views(prev)[j]);
                            }
                        }
                        assert(got =~= want);
                    }
                },
                None => {},
            }
            i += 1;
        }
        out
    }

    /// The smallest identifier that no record has.
    fn first_free_id(&self) -> (r: u128)
        ensures
            is_first_free(self@, r),
    {
        proof {
            use_type_invariant(self);
        }
        let n = self.order.len();
        let mut c: u128 = 0;
        while c <= n as u128
            invariant
                c <= n + 1,
                n == self@.len(),
                forall|d: u128| d < c ==> has_id(self@, d),
            decreases n + 1 - c,
        {
            if !self.holds(c) {
                return c;
            }
            c += 1;
        }
        proof {
            lemma_ids_leave_a_gap(self@);
        }
        c
    }

    /// Adds `e` as the last record.
    fn append(&mut self, e: Employee)
        requires
            !has_id(old(self)@, e.id),
            e.date_of_birth.is_real(),
        ensures
            final(self)@ == old(self)@.push(e@),
    {
        proof {
            use_type_invariant(&*self);
            self.lemma_held(e.id);
        }
        let ghost before = self@;
        let mut taken = Service { records: HashMap::new(), order: Vec::new() };
        proof {
            assert(taken@ =~= Seq::<EmployeeView>::empty());
        }
        std::mem::swap(self, &mut taken);
        proof {
            use_type_invariant(&taken);
        }
        let Service { mut records, mut order } = taken;
        let ghost old_records = records@;
        let ghost old_order = order@;
        let id = e.id;
        let ghost ev = e@;
        records.insert(id, e);
        order.push(id);
        proof {
            assert(!old_records.contains_key(id));
            assert forall|i: int| 0 <= i < old_order.len() implies old_order[i] != id by {
                assert(old_records.contains_key(old_order[i]));
            }
            let now = in_order(order@, records@);
            assert forall|i: int| 0 <= i < old_order.len() implies records@[order@[i]]
                == old_records[old_order[i]] by {
                assert(order@[i] == old_order[i]);
            }
            assert(now =~= before.push(ev));
            lemma_appended_is_found(before, ev);
            assert forall|k: u128| #[trigger] records@.contains_key(k) implies order@.contains(k) by {
                if k != id {
                    assert(old_records.contains_key(k));
                    assert(old_order.contains(k));
                    let i = choose|i: int| 0 <= i < old_order.len() && old_order[i] == k;
                    assert(order@[i] == k);
                } else {
                    assert(order@[old_order.len() as int] == k);
                }
            }
        }
        *self = Service { records, order };
    }

    /// Creates the employee described by `create_employee`, once its birth
    /// date has been checked on the date `today`. The record gets the drawn
    /// identifier `id` when no record has it, else the smallest free one, so
    /// an identifier is never issued twice.
    pub fn add_employee_at(&mut self, create_employee: EmployeeData, today: CalendarDate, id: u128) -> (r: Result<
        Employee,
        ValidationError,
    >)
        ensures
            creation(
                old(self)@,
                &create_employee,
                today,
                id,
                outcome_view(r),
                final(self)@,
            ),
            r is Ok ==> !has_id(old(self)@, r->Ok_0.id),
            well_formed(final(self)@),
    {
        proof {
            use_type_invariant(&*self);
        }
        let dob = match validate_birthday(
            create_employee.year_of_birth,
            create_employee.month_of_birth,
            create_employee.day_of_birth,
            today,
        ) {
            Ok(d) => d,
            Err(why) => return Err(why),
        };
        let issued = if !self.holds(id) {
            id
        } else {
            let c = self.first_free_id();
            proof {
                let w = choose|w: u128| is_first_free(self@, w);
                lemma_first_free_unique(self@, c, w);
            }
            c
        };
        let employee = Employee {
            id: issued,
            first_name: create_employee.first_name,
            last_name: create_employee.last_name,
            date_of_birth: dob,
        };
        self.append(employee.duplicate());
        Ok(employee)
    }

    /// Creates the employee described by `create_employee`, checking its
    /// birth date on today's date and giving it a random 128-bit identifier
    /// (the smallest free one in the unlikely case that the draw is taken).
    /// On success exactly one record is added, under an identifier that no
    /// record had. The outcome is the one given under some real date and some identifier;
    /// only an unreal birth date is rejected as invalid whatever the day.
    pub fn add_employee(&mut self, create_employee: EmployeeData) -> (r: Result<Employee, ValidationError>)
        ensures
            exists|today: CalendarDate, id: u128|
                today.is_real() && #[trigger] creation(
                    old(self)@,
                    &create_employee,
                    today,
                    id,
                    outcome_view(r),
                    final(self)@,
                ),
            (r == Err::<Employee, ValidationError>(ValidationError::InvalidDate)) == !(
            CalendarDate {
                year: create_employee.year_of_birth,
                month: create_employee.month_of_birth,
                day: create_employee.day_of_birth,
            }).is_real(),
            match r {
                Ok(e) => {
                    &&& !has_id(old(self)@, e.id)
                    &&& final(self)@ == old(self)@.push(e@)
                },
                Err(_) => final(self)@ == old(self)@,
            },
            well_formed(final(self)@),
    {
        let today = today();
        let id = fresh_id();
        let ghost data = create_employee;
        let ghost before = self@;
        let r = self.add_employee_at(create_employee, today, id);
        assert(creation(before, &data, today, id, outcome_view(r), self@));
        r
    }
}

} // verus!
