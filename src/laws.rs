//! Facts about the directory that hold for every input: what creating an
//! employee does, what lookups and pages return.

use vstd::prelude::*;
use crate::date::{CalendarDate, ValidationError, LEGAL_AGE, birth_date_check, earlier_in_year, is_of_age, age_on};
use crate::directory::{
    EmployeeData,
    EmployeeView,
    creation,
    find,
    has_id,
    ids_distinct,
    page,
    position_of,
    record_of,
    is_first_free,
    issued_id,
    well_formed,
};
use vstd::set_lib::{lemma_int_range, lemma_len_subset, set_int_range};
use vstd::seq_lib::seq_to_set_is_finite;

verus! {

/// Adding a record under an identifier that no record has keeps the
/// records well formed; the record is then the one found under its
/// identifier, and every other identifier finds what it found before.
pub proof fn lemma_appended_is_found(s: Seq<EmployeeView>, e: EmployeeView)
    requires
        well_formed(s),
        !has_id(s, e.id),
        e.date_of_birth.is_real(),
    ensures
        well_formed(s.push(e)),
        find(s.push(e), e.id) == Some(e),
        forall|k: u128| k != e.id ==> find(s.push(e), k) == find(s, k),
{
    let after = s.push(e);
    assert forall|a: int, b: int|
        0 <= a < after.len() && 0 <= b < after.len() && a != b implies after[a].id
        != after[b].id by {
        if a < s.len() && b < s.len() {
            assert(after[a] == s[a] && after[b] == s[b]);
        } else if a < s.len() {
            assert(after[a] == s[a]);
        } else if b < s.len() {
            assert(after[b] == s[b]);
        }
    }
    assert forall|i: int| 0 <= i < after.len() implies (#[trigger] after[i]).date_of_birth.is_real() by {
        if i < s.len() {
            assert(after[i] == s[i]);
        }
    }
    let n = s.len() as int;
    assert(after[n] == e);
    assert(has_id(after, e.id));
    let w = position_of(after, e.id);
    assert(after[w].id == e.id);
    assert forall|k: u128| k != e.id implies find(after, k) == find(s, k) by {
        if has_id(s, k) {
            let p = position_of(s, k);
            assert(after[p] == s[p]);
            assert(has_id(after, k));
            let q = position_of(after, k);
            assert(after[q].id == k);
            if q != p {
                assert(q < n);
                assert(after[q] == s[q]);
            }
        }
        if has_id(after, k) {
            let q = position_of(after, k);
            assert(after[q].id == k);
            assert(q < n);
            assert(after[q] == s[q]);
        }
    }
}

/// There is at most one smallest free identifier.
pub proof fn lemma_first_free_unique(s: Seq<EmployeeView>, a: u128, b: u128)
    requires
        is_first_free(s, a),
        is_first_free(s, b),
    ensures
        a == b,
{
    if a < b {
        assert(has_id(s, a));
    } else if b < a {
        assert(has_id(s, b));
    }
}

/// The identifiers of `n` records cannot cover all of `0..=n`.
pub proof fn lemma_ids_leave_a_gap(s: Seq<EmployeeView>)
    requires
        s.len() <= usize::MAX,
    ensures
        exists|d: u128| d <= s.len() && !has_id(s, d),
{
    if forall|d: u128| d <= s.len() ==> has_id(s, d) {
        let ids = s.map_values(|e: EmployeeView| e.id as int);
        let range = set_int_range(0, s.len() + 1int);
        ids.lemma_cardinality_of_set();
        lemma_int_range(0, s.len() + 1int);
        seq_to_set_is_finite(ids);
        assert forall|x: int| range.contains(x) implies ids.to_set().contains(x) by {
            let d = x as u128;
            assert(has_id(s, d));
            let i = choose|i: int| 0 <= i < s.len() && s[i].id == d;
            assert(ids[i] == x);
            assert(ids.contains(x));
        }
        lemma_len_subset(range, ids.to_set());
    }
}

/// A birth date that is a real date, and that makes its holder of legal age
/// on `today`, is accepted: the record created keeps the date exactly and is
/// found afterwards under the identifier it was given.
pub proof fn lemma_accepted_employee_is_found(
    before: Seq<EmployeeView>,
    data: &EmployeeData,
    today: CalendarDate,
    id: u128,
    r: Result<EmployeeView, ValidationError>,
    after: Seq<EmployeeView>,
)
    requires
        well_formed(before),
        before.len() <= usize::MAX,
        (CalendarDate {
            year: data.year_of_birth,
            month: data.month_of_birth,
            day: data.day_of_birth,
        }).is_real(),
        is_of_age(
            CalendarDate {
                year: data.year_of_birth,
                month: data.month_of_birth,
                day: data.day_of_birth,
            },
            today,
        ),
        creation(before, data, today, id, r, after),
    ensures
        r is Ok,
        r->Ok_0.id == issued_id(before, id),
        !has_id(before, r->Ok_0.id),
        r->Ok_0.date_of_birth == (CalendarDate {
            year: data.year_of_birth,
            month: data.month_of_birth,
            day: data.day_of_birth,
        }),
        find(after, r->Ok_0.id) == Some(r->Ok_0),
        well_formed(after),
{
    let dob = CalendarDate {
        year: data.year_of_birth,
        month: data.month_of_birth,
        day: data.day_of_birth,
    };
    assert(birth_date_check(data.year_of_birth, data.month_of_birth, data.day_of_birth, today)
        == Ok::<CalendarDate, ValidationError>(dob));
    lemma_issued_id_is_free(before, id);
    lemma_appended_is_found(before, record_of(data, issued_id(before, id), dob));
}

/// Year, month and day that do not form a real date are rejected as an
/// invalid date, whatever the day of the check.
pub proof fn lemma_unreal_date_is_invalid(year: i32, month: u32, day: u32, today: CalendarDate)
    requires
        !(CalendarDate { year, month, day }).is_real(),
    ensures
        birth_date_check(year, month, day, today) == Err::<CalendarDate, ValidationError>(
            ValidationError::InvalidDate,
        ),
{
}

/// Someone born in the year exactly the legal age before this one, whose
/// birthday lies later in the year than today, is still underage.
pub proof fn lemma_birthday_ahead_is_underage(birth: CalendarDate, today: CalendarDate)
    requires
        birth.is_real(),
        birth.year == today.year - LEGAL_AGE,
        earlier_in_year(today.month as int, today.day as int, birth.month as int, birth.day as int),
    ensures
        age_on(birth, today) == LEGAL_AGE - 1,
        birth_date_check(birth.year, birth.month, birth.day, today) == Err::<
            CalendarDate,
            ValidationError,
        >(ValidationError::Underage),
{
}

/// On the birthday on which someone reaches exactly the legal age, the
/// birth date is accepted.
pub proof fn lemma_legal_age_birthday_is_accepted(birth: CalendarDate, today: CalendarDate)
    requires
        birth.is_real(),
        birth.year == today.year - LEGAL_AGE,
        birth.month == today.month,
        birth.day == today.day,
    ensures
        age_on(birth, today) == LEGAL_AGE,
        birth_date_check(birth.year, birth.month, birth.day, today) == Ok::<
            CalendarDate,
            ValidationError,
        >(birth),
{
}

/// Some identifier is free, and so there is a smallest free one.
pub proof fn lemma_first_free_exists(s: Seq<EmployeeView>, c: u128)
    requires
        !has_id(s, c),
    ensures
        exists|f: u128| is_first_free(s, f),
    decreases c,
{
    if forall|d: u128| d < c ==> has_id(s, d) {
        assert(is_first_free(s, c));
    } else {
        let d = choose|d: u128| d < c && !has_id(s, d);
        lemma_first_free_exists(s, d);
    }
}

/// The identifier issued for a new record is one that no record has.
pub proof fn lemma_issued_id_is_free(s: Seq<EmployeeView>, drawn: u128)
    requires
        s.len() <= usize::MAX,
    ensures
        !has_id(s, issued_id(s, drawn)),
{
    if has_id(s, drawn) {
        lemma_ids_leave_a_gap(s);
        let c = choose|d: u128| d <= s.len() && !has_id(s, d);
        lemma_first_free_exists(s, c);
    }
}

/// An identifier that no record has is found by no lookup, and creating an
/// employee does not change that unless the new record is issued it.
pub proof fn lemma_unissued_id_stays_unfound(
    before: Seq<EmployeeView>,
    data: &EmployeeData,
    today: CalendarDate,
    id: u128,
    r: Result<EmployeeView, ValidationError>,
    after: Seq<EmployeeView>,
    unissued: u128,
)
    requires
        well_formed(before),
        before.len() <= usize::MAX,
        !has_id(before, unissued),
        unissued != issued_id(before, id),
        creation(before, data, today, id, r, after),
    ensures
        find(before, unissued) == None::<EmployeeView>,
        find(after, unissued) == None::<EmployeeView>,
{
    match birth_date_check(data.year_of_birth, data.month_of_birth, data.day_of_birth, today) {
        Ok(dob) => {
            lemma_issued_id_is_free(before, id);
            lemma_appended_is_found(before, record_of(data, issued_id(before, id), dob));
        },
        Err(_) => {},
    }
}

/// A successful creation adds exactly one record, last, under an
/// identifier that no record had; every record held before is still found
/// unchanged under its identifier: no update is lost and no identifier
/// reused.
pub proof fn lemma_creation_adds_one(
    before: Seq<EmployeeView>,
    data: &EmployeeData,
    today: CalendarDate,
    id: u128,
    r: Result<EmployeeView, ValidationError>,
    after: Seq<EmployeeView>,
)
    requires
        well_formed(before),
        before.len() <= usize::MAX,
        creation(before, data, today, id, r, after),
        r is Ok,
    ensures
        !has_id(before, r->Ok_0.id),
        after == before.push(r->Ok_0),
        after.len() == before.len() + 1,
        well_formed(after),
        forall|k: u128| has_id(before, k) ==> find(after, k) == find(before, k),
{
    match birth_date_check(data.year_of_birth, data.month_of_birth, data.day_of_birth, today) {
        Ok(dob) => {
            lemma_issued_id_is_free(before, id);
            lemma_appended_is_found(before, record_of(data, issued_id(before, id), dob));
        },
        Err(_) => {},
    }
}

/// A failed creation leaves the records as they were.
pub proof fn lemma_rejection_changes_nothing(
    before: Seq<EmployeeView>,
    data: &EmployeeData,
    today: CalendarDate,
    id: u128,
    r: Result<EmployeeView, ValidationError>,
    after: Seq<EmployeeView>,
)
    requires
        creation(before, data, today, id, r, after),
        r is Err,
    ensures
        after == before,
{
}

/// For a directory of `n` records: a page from the start of `n` records
/// holds every record once, a page that starts after the last record
/// is empty, and so is a page of no records.
pub proof fn lemma_pages_of_directory(s: Seq<EmployeeView>)
    requires
        well_formed(s),
    ensures
        page(s, 0, s.len() as int) == s,
        ids_distinct(page(s, 0, s.len() as int)),
        page(s, s.len() as int, 1) == Seq::<EmployeeView>::empty(),
        page(s, 0, 0) == Seq::<EmployeeView>::empty(),
{
    if s.len() == 0 {
        assert(page(s, 0, s.len() as int) =~= s);
    } else {
        assert(page(s, 0, s.len() as int) =~= s);
        assert(page(s, 0, 0) =~= Seq::<EmployeeView>::empty());
    }
}

/// Successful creations from an empty directory, each adding its record
/// last under an identifier that no record had (what `add_employee` ensures
/// on success), leave exactly the created records, each once with its own
/// identifier; a full page lists them all, and a page after them is empty.
pub proof fn lemma_successive_creations(states: Seq<Seq<EmployeeView>>, created: Seq<EmployeeView>)
    requires
        states.len() == created.len() + 1,
        states[0] == Seq::<EmployeeView>::empty(),
        forall|i: int|
            0 <= i < created.len() ==> !has_id(states[i], #[trigger] created[i].id) && states[i + 1]
                == states[i].push(created[i]),
    ensures
        states.last() == created,
        ids_distinct(created),
        page(states.last(), 0, created.len() as int) == created,
        page(states.last(), created.len() as int, 1) == Seq::<EmployeeView>::empty(),
{
    assert forall|i: int| 0 <= i <= created.len() implies #[trigger] states[i] == created.subrange(0, i) by {
        lemma_states_are_prefixes(states, created, i);
    }
    assert(states.last() =~= created);
    assert forall|a: int, b: int|
        0 <= a < created.len() && 0 <= b < created.len() && a != b implies created[a].id
        != created[b].id by {
        let (lo, hi) = if a < b { (a, b) } else { (b, a) };
        assert(states[hi] == created.subrange(0, hi));
        assert(states[hi][lo] == created[lo]);
        assert(!has_id(states[hi], created[hi].id));
    }
    assert(page(created, 0, created.len() as int) =~= created);
}

proof fn lemma_states_are_prefixes(states: Seq<Seq<EmployeeView>>, created: Seq<EmployeeView>, i: int)
    requires
        states.len() == created.len() + 1,
        states[0] == Seq::<EmployeeView>::empty(),
        forall|i: int|
            0 <= i < created.len() ==> !has_id(states[i], #[trigger] created[i].id) && states[i + 1]
                == states[i].push(created[i]),
        0 <= i <= created.len(),
    ensures
        states[i] == created.subrange(0, i),
    decreases i,
{
    if i == 0 {
        assert(states[0] =~= created.subrange(0, 0));
    } else {
        lemma_states_are_prefixes(states, created, i - 1);
        let k = i - 1;
        assert(!has_id(states[k], created[k].id));
        assert(states[k + 1] == states[k].push(created[k]));
        assert(states[i] =~= created.subrange(0, i));
    }
}

} // verus!
