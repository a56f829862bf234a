use karma_slap::coefficient::{scaled_amount, Coefficient};
use karma_slap::order::name_less;
use karma_slap::executor::{entry_shown, spin_delay_ms, spin_rotations, Executor, Outcome};
use karma_slap::storage::Storage;
use karma_slap::types::{
    Add, HistoryEntry, KarmaError, List, Mode, Punish, Punishment, Setting, Timestamp, User,
};

fn punishment(name: &str, amount: u64) -> Punishment {
    Punishment { name: name.to_string(), amount }
}

fn entry(user: &str, fault: &str, p: &str, amount: u64, secs: i64) -> HistoryEntry {
    HistoryEntry {
        datetime: Timestamp { secs, nanos: 0, offset_secs: 3600 },
        username: user.to_string(),
        fault: fault.to_string(),
        punishment: punishment(p, amount),
    }
}

fn dec(negative: bool, digits: u64, scale: u32) -> Coefficient {
    Coefficient { negative, digits, scale }
}

fn same_coefficient(a: Option<Coefficient>, b: Option<Coefficient>) -> bool {
    match (a, b) {
        (None, None) => true,
        (Some(x), Some(y)) => x.negative == y.negative && x.digits == y.digits && x.scale == y.scale,
        _ => false,
    }
}

fn names(users: &[User]) -> Vec<(String, u32, u32)> {
    users.iter().map(|u| (u.name.clone(), u.faults_overall, u.faults_current)).collect()
}

fn entries(h: &[HistoryEntry]) -> Vec<(i64, String, String, String, u64)> {
    h.iter()
        .map(|e| {
            (e.datetime.secs, e.username.clone(), e.fault.clone(), e.punishment.name.clone(), e.punishment.amount)
        })
        .collect()
}

#[test]
fn user_new_has_no_faults() {
    let u = User::new("alice".to_string());
    assert_eq!(u.name, "alice");
    assert_eq!(u.faults_overall, 0);
    assert_eq!(u.faults_current, 0);
}

#[test]
fn user_increment_faults_counts_both() {
    let mut u = User::new("alice".to_string());
    u.increment_faults();
    u.increment_faults();
    assert_eq!(u.faults_overall, 2);
    assert_eq!(u.faults_current, 2);
}

#[test]
fn amount_formula_exact_value() {
    // 10 * 3 * 1.5 * 2
    assert_eq!(scaled_amount(10, 3, dec(false, 15, 1), 2), 90);
}

#[test]
fn amount_formula_rounds_up() {
    // 1 * 1 * 0.3 * 1 = 0.3
    assert_eq!(scaled_amount(1, 1, dec(false, 3, 1), 1), 1);
    // 7 * 1 * 0.5 * 1 = 3.5
    assert_eq!(scaled_amount(7, 1, dec(false, 5, 1), 1), 4);
    // 4 * 1 * 0.5 * 1 = 2 exactly
    assert_eq!(scaled_amount(4, 1, dec(false, 5, 1), 1), 2);
}

#[test]
fn amount_formula_zero_inputs() {
    assert_eq!(scaled_amount(10, 0, Coefficient::one(), 3), 0);
    assert_eq!(scaled_amount(10, 2, Coefficient::one(), 0), 0);
}

#[test]
fn amount_formula_negative_coefficient_is_zero() {
    assert_eq!(scaled_amount(10, 2, dec(true, 5, 0), 3), 0);
}

#[test]
fn amount_formula_saturates() {
    assert_eq!(scaled_amount(u64::MAX, 2, Coefficient::one(), 1), u64::MAX);
    assert_eq!(scaled_amount(u64::MAX, u16::MAX, dec(false, u64::MAX, 0), u32::MAX), u64::MAX);
    assert_eq!(scaled_amount(u64::MAX, 1, dec(false, 1, 19), 1), 2);
}

#[test]
fn coefficient_parse_accepts_decimals() {
    assert!(same_coefficient(Coefficient::parse("1.5"), Some(dec(false, 15, 1))));
    assert!(same_coefficient(Coefficient::parse("-2"), Some(dec(true, 2, 0))));
    assert!(same_coefficient(Coefficient::parse("+.5"), Some(dec(false, 5, 1))));
    assert!(same_coefficient(Coefficient::parse("3."), Some(dec(false, 3, 0))));
    assert!(same_coefficient(Coefficient::parse("0.25"), Some(dec(false, 25, 2))));
}

#[test]
fn coefficient_parse_rejects_other_text() {
    assert!(Coefficient::parse("").is_none());
    assert!(Coefficient::parse(".").is_none());
    assert!(Coefficient::parse("-").is_none());
    assert!(Coefficient::parse("abc").is_none());
    assert!(Coefficient::parse("1.2.3").is_none());
    assert!(Coefficient::parse("1e5").is_none());
}

#[test]
fn coefficient_parse_rejects_what_does_not_fit() {
    assert!(same_coefficient(
        Coefficient::parse("18446744073709551615"),
        Some(dec(false, u64::MAX, 0))
    ));
    assert!(Coefficient::parse("18446744073709551616").is_none());
    assert!(same_coefficient(
        Coefficient::parse("0.0000000000000000001"),
        Some(dec(false, 1, 19))
    ));
    assert!(Coefficient::parse("0.00000000000000000001").is_none());
}

#[test]
fn storage_add_user_keeps_first_of_a_name() {
    let mut s = Storage::new();
    s.add_user(User::new("bob".to_string()));
    let mut other = User::new("bob".to_string());
    other.faults_overall = 5;
    s.add_user(other);
    s.add_user(User::new("amy".to_string()));
    assert_eq!(names(s.users()), vec![("bob".to_string(), 0, 0), ("amy".to_string(), 0, 0)]);
    assert!(s.get_user_by_name("amy").is_some());
    assert!(s.get_user_by_name("carl").is_none());
}

#[test]
fn storage_add_fault_tells_whether_new() {
    let mut s = Storage::new();
    assert!(s.add_fault("late".to_string()));
    assert!(!s.add_fault("late".to_string()));
    assert!(s.add_fault("rude".to_string()));
    assert_eq!(s.faults(), &vec!["late".to_string(), "rude".to_string()]);
}

#[test]
fn storage_add_punishment_keeps_first_of_a_name() {
    let mut s = Storage::new();
    s.add_punishment(punishment("pushups", 10));
    s.add_punishment(punishment("pushups", 99));
    assert_eq!(s.punishments().len(), 1);
    assert_eq!(s.punishments()[0].amount, 10);
}

#[test]
fn storage_set_value_replaces() {
    let mut s = Storage::new();
    assert!(s.value("coefficient").is_none());
    s.set_value("coefficient".to_string(), "1.5".to_string());
    s.set_value("other".to_string(), "x".to_string());
    s.set_value("coefficient".to_string(), "2".to_string());
    assert_eq!(s.value("coefficient"), Some(&"2".to_string()));
    assert_eq!(s.values().len(), 2);
}

#[test]
fn storage_increment_faults() {
    let mut s = Storage::new();
    s.add_user(User::new("bob".to_string()));
    assert_eq!(s.increment_faults("bob"), Ok(()));
    assert_eq!(s.increment_faults("carl"), Err(KarmaError::UserNotFound));
    assert_eq!(names(s.users()), vec![("bob".to_string(), 1, 1)]);
}

#[test]
fn storage_increment_faults_at_limit() {
    let mut u = User::new("bob".to_string());
    u.faults_current = u32::MAX;
    let mut s = Storage::from_parts(vec![u], vec![], vec![], vec![], vec![]);
    assert_eq!(s.increment_faults("bob"), Err(KarmaError::FaultCountOverflow));
    assert_eq!(names(s.users()), vec![("bob".to_string(), 0, u32::MAX)]);
}

#[test]
fn history_is_append_only_in_order() {
    let mut s = Storage::new();
    s.log(entry("bob", "late", "pushups", 10, 1));
    s.add_user(User::new("bob".to_string()));
    s.log(entry("amy", "rude", "squats", 20, 2));
    s.add_fault("late".to_string());
    s.log(entry("bob", "late", "pushups", 30, 3));
    let secs: Vec<i64> = s.history().iter().map(|e| e.datetime.secs).collect();
    assert_eq!(secs, vec![1, 2, 3]);
    assert_eq!(s.history()[1].username, "amy");
}

#[test]
fn from_parts_keeps_first_of_each_key() {
    let s = Storage::from_parts(
        vec![User::new("bob".to_string()), User::new("bob".to_string())],
        vec!["late".to_string(), "late".to_string()],
        vec![punishment("pushups", 1), punishment("pushups", 2)],
        vec![("k".to_string(), "a".to_string()), ("k".to_string(), "b".to_string())],
        vec![entry("bob", "late", "pushups", 1, 7), entry("bob", "late", "pushups", 1, 7)],
    );
    assert_eq!(s.users().len(), 1);
    assert_eq!(s.faults().len(), 1);
    assert_eq!(s.punishments()[0].amount, 1);
    assert_eq!(s.value("k"), Some(&"a".to_string()));
    assert_eq!(s.history().len(), 2);
}

#[test]
fn save_load_round_trip_preserves_state() {
    let mut s = Storage::new();
    s.add_user(User::new("bob".to_string()));
    s.add_user(User::new("amy".to_string()));
    s.add_fault("late".to_string());
    s.add_punishment(punishment("pushups", 10));
    s.set_value("coefficient".to_string(), "1.5".to_string());
    s.increment_faults("amy").unwrap();
    s.log(entry("amy", "late", "pushups", 15, 42));
    let back = Storage::from_parts(
        s.users().clone(),
        s.faults().clone(),
        s.punishments().clone(),
        s.values().clone(),
        s.history().clone(),
    );
    assert_eq!(names(back.users()), names(s.users()));
    assert_eq!(back.faults(), s.faults());
    let ps: Vec<(String, u64)> = back.punishments().iter().map(|p| (p.name.clone(), p.amount)).collect();
    assert_eq!(ps, vec![("pushups".to_string(), 10)]);
    assert_eq!(back.values(), s.values());
    assert_eq!(entries(back.history()), entries(s.history()));
}

fn executor_with(coefficient: Option<&str>) -> Executor {
    let mut s = Storage::new();
    s.add_user(User::new("bob".to_string()));
    s.add_punishment(punishment("pushups", 10));
    if let Some(c) = coefficient {
        s.set_value("coefficient".to_string(), c.to_string());
    }
    Executor::new(s)
}

fn punish(user: &str, fault: &str, severity: u16) -> Punish {
    Punish { user: user.to_string(), fault: fault.to_string(), severity }
}

#[test]
fn punish_scales_by_severity_coefficient_and_count() {
    let mut ex = executor_with(Some("1.5"));
    let e = ex.process_punish(punish("bob", "late", 2)).unwrap();
    // 10 * 2 * 1.5 * 1
    assert_eq!(e.punishment.name, "pushups");
    assert_eq!(e.punishment.amount, 30);
    assert_eq!(e.username, "bob");
    assert_eq!(e.fault, "late");
    let e = ex.process_punish(punish("bob", "late", 2)).unwrap();
    // 10 * 2 * 1.5 * 2
    assert_eq!(e.punishment.amount, 60);
    let s = ex.storage();
    assert_eq!(names(s.users()), vec![("bob".to_string(), 2, 2)]);
    assert_eq!(s.faults(), &vec!["late".to_string()]);
    assert_eq!(s.history().len(), 2);
    assert_eq!(s.history()[1].punishment.amount, 60);
}

#[test]
fn punish_without_coefficient_uses_one() {
    let mut ex = executor_with(None);
    let e = ex.process_punish(punish("bob", "late", 3)).unwrap();
    assert_eq!(e.punishment.amount, 30);
}

#[test]
fn punish_with_unreadable_coefficient_uses_one() {
    let mut ex = executor_with(Some("lots"));
    let e = ex.process_punish(punish("bob", "late", 3)).unwrap();
    assert_eq!(e.punishment.amount, 30);
}

#[test]
fn punish_picks_one_of_the_known_punishments() {
    let mut s = Storage::new();
    s.add_user(User::new("bob".to_string()));
    s.add_punishment(punishment("pushups", 10));
    s.add_punishment(punishment("squats", 7));
    let mut ex = Executor::new(s);
    for _ in 0..20 {
        let e = ex.process_punish(punish("bob", "late", 1)).unwrap();
        assert!(e.punishment.name == "pushups" || e.punishment.name == "squats");
    }
}

#[test]
fn punish_unknown_user_changes_nothing() {
    let mut ex = executor_with(None);
    assert_eq!(ex.process_punish(punish("carl", "late", 1)).err(), Some(KarmaError::UserNotFound));
    assert_eq!(ex.storage().faults().len(), 0);
    assert_eq!(ex.storage().history().len(), 0);
}

#[test]
fn punish_without_punishments_fails() {
    let mut s = Storage::new();
    s.add_user(User::new("bob".to_string()));
    let mut ex = Executor::new(s);
    assert_eq!(ex.process_punish(punish("bob", "late", 1)).err(), Some(KarmaError::NoPunishments));
    assert_eq!(names(ex.storage().users()), vec![("bob".to_string(), 0, 0)]);
}

#[test]
fn punish_at_fault_limit_fails() {
    let mut u = User::new("bob".to_string());
    u.faults_overall = u32::MAX;
    let s = Storage::from_parts(vec![u], vec![], vec![punishment("pushups", 1)], vec![], vec![]);
    let mut ex = Executor::new(s);
    assert_eq!(
        ex.process_punish(punish("bob", "late", 1)).err(),
        Some(KarmaError::FaultCountOverflow)
    );
}

#[test]
fn execute_add_set_and_list() {
    let mut ex = Executor::new(Storage::new());
    assert!(matches!(
        ex.execute(Mode::Add(Add::Fault("late".to_string()))),
        Ok(Outcome::FaultAdded(true))
    ));
    assert!(matches!(
        ex.execute(Mode::Add(Add::Fault("late".to_string()))),
        Ok(Outcome::FaultAdded(false))
    ));
    assert!(matches!(
        ex.execute(Mode::Add(Add::User(User::new("bob".to_string())))),
        Ok(Outcome::UserAdded)
    ));
    assert!(matches!(
        ex.execute(Mode::Add(Add::Punishment(punishment("pushups", 4)))),
        Ok(Outcome::PunishmentAdded)
    ));
    assert!(matches!(
        ex.execute(Mode::Configure(Setting::Coefficient("2".to_string()))),
        Ok(Outcome::Configured)
    ));
    assert_eq!(ex.storage().value("coefficient"), Some(&"2".to_string()));
    match ex.execute(Mode::Punish(punish("bob", "rude", 3))) {
        Ok(Outcome::Punished(e)) => assert_eq!(e.punishment.amount, 24),
        other => panic!("unexpected {:?}", other),
    }
    match ex.execute(Mode::List(List::Faults)) {
        Ok(Outcome::Listed(v)) => assert_eq!(v, vec![0, 1]),
        other => panic!("unexpected {:?}", other),
    }
    match ex.execute(Mode::List(List::Users)) {
        Ok(Outcome::Listed(v)) => assert_eq!(v, vec![0]),
        other => panic!("unexpected {:?}", other),
    }
}

#[test]
fn history_listing_filters_by_lowered_name() {
    let s = Storage::from_parts(
        vec![],
        vec![],
        vec![],
        vec![],
        vec![
            entry("Bob", "late", "pushups", 1, 1),
            entry("amy", "late", "pushups", 1, 2),
            entry("BOB", "rude", "pushups", 1, 3),
        ],
    );
    let ex = Executor::new(s);
    assert_eq!(ex.process_list(List::History("ALL".to_string())), vec![0, 1, 2]);
    assert_eq!(ex.process_list(List::History("bob".to_string())), vec![0, 2]);
    assert_eq!(ex.process_list(List::History("Bob".to_string())), Vec::<usize>::new());
    assert_eq!(ex.process_list(List::History("amy".to_string())), vec![1]);
}

#[test]
fn entry_shown_cases() {
    assert!(entry_shown("all", "All", "bob"));
    assert!(entry_shown("bob", "bob", "bob"));
    assert!(!entry_shown("bob", "Bob", "bob"));
}

#[test]
fn spin_delays_rise_from_20_towards_500() {
    assert_eq!(spin_delay_ms(0, 10), 20);
    assert_eq!(spin_delay_ms(5, 10), 260);
    assert_eq!(spin_delay_ms(9, 10), 452);
    assert_eq!(spin_delay_ms(1, 3), 180);
}

#[test]
fn spin_rotations_in_range() {
    for _ in 0..50 {
        let r = spin_rotations();
        assert!((10..100).contains(&r));
    }
}

#[test]
fn listings_come_in_name_order() {
    let mut s = Storage::new();
    s.add_user(User::new("bob".to_string()));
    s.add_user(User::new("amy".to_string()));
    s.add_user(User::new("carl".to_string()));
    s.add_user(User::new("Zed".to_string()));
    s.add_punishment(punishment("squats", 1));
    s.add_punishment(punishment("pushups", 2));
    s.add_fault("rude".to_string());
    s.add_fault("late".to_string());
    s.add_fault("lat".to_string());
    let ex = Executor::new(s);
    assert_eq!(ex.process_list(List::Users), vec![3, 1, 0, 2]);
    assert_eq!(ex.process_list(List::Punishments), vec![1, 0]);
    assert_eq!(ex.process_list(List::Faults), vec![2, 1, 0]);
}

#[test]
fn name_less_orders_by_characters() {
    assert!(name_less("amy", "bob"));
    assert!(!name_less("bob", "amy"));
    assert!(name_less("lat", "late"));
    assert!(!name_less("late", "late"));
    assert!(name_less("", "a"));
    assert!(name_less("Zed", "amy"));
}
