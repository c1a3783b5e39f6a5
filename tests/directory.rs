use chrono::Datelike;
use employee_directory::date::{CalendarDate, ValidationError};
use employee_directory::directory::{EmployeeData, NotFoundError, Service};

fn today() -> CalendarDate {
    CalendarDate { year: 2024, month: 3, day: 15 }
}

fn data(first: &str, last: &str, year: i32, month: u32, day: u32) -> EmployeeData {
    EmployeeData {
        first_name: first.to_string(),
        last_name: last.to_string(),
        year_of_birth: year,
        month_of_birth: month,
        day_of_birth: day,
    }
}

#[test]
fn accepted_employee_keeps_its_data_and_is_found() {
    let mut service = Service::new();
    let e = service.add_employee_at(data("Ada", "Lovelace", 1990, 12, 10), today(), 7).unwrap();
    assert_eq!(e.id, 7);
    assert_eq!(e.first_name, "Ada");
    assert_eq!(e.last_name, "Lovelace");
    assert_eq!(e.date_of_birth, CalendarDate { year: 1990, month: 12, day: 10 });
    let found = service.get_employee(7).unwrap();
    assert_eq!(found.id, 7);
    assert_eq!(found.first_name, "Ada");
    assert_eq!(found.date_of_birth, e.date_of_birth);
    assert_eq!(service.len(), 1);
}

#[test]
fn rejected_employee_changes_nothing() {
    let mut service = Service::new();
    let invalid = service.add_employee_at(data("A", "B", 2023, 2, 30), today(), 1);
    assert_eq!(invalid.unwrap_err(), ValidationError::InvalidDate);
    let young = service.add_employee_at(data("A", "B", 2006, 3, 16), today(), 2);
    assert_eq!(young.unwrap_err(), ValidationError::Underage);
    assert_eq!(service.len(), 0);
    assert_eq!(service.get_employee(1).unwrap_err(), NotFoundError);
    assert_eq!(service.get_employee(2).unwrap_err(), NotFoundError);
}

#[test]
fn unknown_id_is_not_found() {
    let mut service = Service::new();
    assert_eq!(service.get_employee(42).unwrap_err(), NotFoundError);
    service.add_employee_at(data("A", "B", 1980, 1, 1), today(), 1).unwrap();
    assert_eq!(service.get_employee(42).unwrap_err(), NotFoundError);
}

#[test]
fn get_twice_gives_the_same_record() {
    let mut service = Service::new();
    service.add_employee_at(data("Grace", "Hopper", 1906, 12, 9), today(), 3).unwrap();
    let a = service.get_employee(3).unwrap();
    let b = service.get_employee(3).unwrap();
    assert_eq!(a.id, b.id);
    assert_eq!(a.first_name, b.first_name);
    assert_eq!(a.last_name, b.last_name);
    assert_eq!(a.date_of_birth, b.date_of_birth);
}

#[test]
fn taken_identifier_gives_the_smallest_free_one() {
    let mut service = Service::new();
    service.add_employee_at(data("A", "One", 1980, 1, 1), today(), 5).unwrap();
    service.add_employee_at(data("B", "Two", 1981, 2, 2), today(), 6).unwrap();
    let c = service.add_employee_at(data("C", "Three", 1982, 3, 3), today(), 5).unwrap();
    assert_eq!(c.id, 0);
    assert_eq!(service.len(), 3);
    let listed = service.list_employees(None, None);
    assert_eq!(listed[0].id, 5);
    assert_eq!(listed[0].first_name, "A");
    assert_eq!(listed[1].id, 6);
    assert_eq!(listed[2].id, 0);
    assert_eq!(listed[2].first_name, "C");
    let d = service.add_employee_at(data("D", "Four", 1983, 4, 4), today(), 6).unwrap();
    assert_eq!(d.id, 1);
    assert_eq!(service.get_employee(5).unwrap().first_name, "A");
}

#[test]
fn random_ids_and_clock_date() {
    let a = employee_directory::directory::random_id();
    let b = employee_directory::directory::random_id();
    assert_ne!(a, b);
    let t = employee_directory::date::today();
    assert!(t.year >= 2024);
    assert!((1..=12).contains(&t.month));
}

#[test]
fn pages_of_a_directory() {
    let mut service = Service::new();
    for i in 0..10u128 {
        service.add_employee_at(data("N", "M", 1970, 1, 1), today(), 100 + i).unwrap();
    }
    let all = service.list_employees(Some(0), Some(10));
    assert_eq!(all.len(), 10);
    let ids: Vec<u128> = all.iter().map(|e| e.id).collect();
    assert_eq!(ids, (100..110).collect::<Vec<u128>>());
    assert!(service.list_employees(Some(10), Some(1)).is_empty());
    assert!(service.list_employees(Some(0), Some(0)).is_empty());
    assert!(service.list_employees(Some(11), None).is_empty());
    let middle: Vec<u128> = service.list_employees(Some(3), Some(4)).iter().map(|e| e.id).collect();
    assert_eq!(middle, vec![103, 104, 105, 106]);
    let tail: Vec<u128> = service.list_employees(Some(8), None).iter().map(|e| e.id).collect();
    assert_eq!(tail, vec![108, 109]);
    assert_eq!(service.list_employees(None, Some(usize::MAX)).len(), 10);
    assert_eq!(service.list_employees(Some(usize::MAX), Some(usize::MAX)).len(), 0);
}

#[test]
fn empty_directory_lists_nothing() {
    let service = Service::new();
    assert!(service.list_employees(None, None).is_empty());
    assert_eq!(service.len(), 0);
}

#[test]
fn hundred_creates_give_distinct_ids_and_all_are_listed() {
    let mut service = Service::new();
    let mut ids: Vec<u128> = Vec::new();
    for _ in 0..100 {
        let e = service.add_employee(data("P", "Q", 1970, 6, 1)).unwrap();
        ids.push(e.id);
    }
    let mut sorted = ids.clone();
    sorted.sort();
    sorted.dedup();
    assert_eq!(sorted.len(), 100);
    let listed = service.list_employees(Some(0), Some(100));
    assert_eq!(listed.len(), 100);
    let mut listed_ids: Vec<u128> = listed.iter().map(|e| e.id).collect();
    listed_ids.sort();
    assert_eq!(listed_ids, sorted);
    assert!(service.list_employees(Some(100), Some(1)).is_empty());
    assert!(service.list_employees(Some(0), Some(0)).is_empty());
}

#[test]
fn create_on_the_real_clock() {
    let mut service = Service::new();
    let ok = service.add_employee(data("Old", "Enough", 1950, 7, 4)).unwrap();
    assert_eq!(ok.date_of_birth, CalendarDate { year: 1950, month: 7, day: 4 });
    assert!(service.get_employee(ok.id).is_ok());
    let invalid = service.add_employee(data("No", "Date", 2023, 13, 1));
    assert_eq!(invalid.unwrap_err(), ValidationError::InvalidDate);
    let young = service.add_employee(data("Too", "Young", 262142, 1, 1));
    assert_eq!(young.unwrap_err(), ValidationError::Underage);
    assert_eq!(service.len(), 1);
}

#[test]
fn eighteenth_birthday_today_on_the_real_clock() {
    let now = chrono::Utc::now().naive_utc();
    let (y, m, d) = (now.year() - 18, now.month(), now.day());
    if chrono::NaiveDate::from_ymd_opt(y, m, d).is_some() {
        let mut service = Service::new();
        let e = service.add_employee(data("Just", "Eighteen", y, m, d)).unwrap();
        assert_eq!(e.date_of_birth, CalendarDate { year: y, month: m, day: d });
    }
    let tomorrow = now.date().succ_opt().unwrap();
    let (ty, tm, td) = (tomorrow.year() - 18, tomorrow.month(), tomorrow.day());
    if chrono::NaiveDate::from_ymd_opt(ty, tm, td).is_some() {
        let mut service = Service::new();
        let r = service.add_employee(data("Almost", "Eighteen", ty, tm, td));
        assert_eq!(r.unwrap_err(), ValidationError::Underage);
    }
}

#[test]
fn duplicate_copies_every_field() {
    let mut service = Service::new();
    let e = service.add_employee_at(data("X", "Y", 1960, 5, 5), today(), 9).unwrap();
    let c = e.duplicate();
    assert_eq!(c.id, 9);
    assert_eq!(c.first_name, "X");
    assert_eq!(c.last_name, "Y");
    assert_eq!(c.date_of_birth, e.date_of_birth);
}
