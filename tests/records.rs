use todo::decimal::{chars_to_int, int_to_chars};
use todo::manager::TaskManager;
use todo::store::{parse_store, render};
use todo::task::{Instant, Task, TaskError};
use todo::util::get_random_id;

fn at(secs: i64) -> Instant {
    Instant { secs, nanos: 0 }
}

fn task(id: &str, name: &str, secs: i64) -> Task {
    Task::new(id.to_string(), name.to_string(), at(secs))
}

#[test]
fn round_trip_drops_fraction_of_second() {
    let t = Task::new("ab12".to_string(), "Buy milk".to_string(), Instant { secs: 1700000000, nanos: 750 });
    let line = t.to_string();
    assert_eq!(line, "ab12|Buy milk|1700000000|false");
    let back = Task::parse(line).unwrap();
    assert_eq!(back.id, "ab12");
    assert_eq!(back.name, "Buy milk");
    assert_eq!(back.date, Instant { secs: 1700000000, nanos: 0 });
    assert!(!back.done);
}

#[test]
fn round_trip_done_and_negative_date() {
    let mut t = task("q0q0", "old", -86400);
    t.done = true;
    let line = t.to_string();
    assert_eq!(line, "q0q0|old|-86400|true");
    let back = Task::parse(line).unwrap();
    assert_eq!(back.date.secs, -86400);
    assert!(back.done);
}

#[test]
fn escaping_keeps_names() {
    for name in ["a|b", "a\\|b", "|\\||", "||", "\\a", "x\\\\|y", ""] {
        let t = task("ab12", name, 5);
        let back = Task::parse(t.to_string()).unwrap();
        assert_eq!(back.name, name);
    }
}

#[test]
fn escaping_writes_backslash_pipe() {
    let t = task("ab12", "Pay|check", 1);
    assert_eq!(t.to_string(), "ab12|Pay\\|check|1|false");
}

#[test]
fn ids_stay_unique_after_adds() {
    let mut tm = TaskManager::load(&String::new()).unwrap();
    for _ in 0..50 {
        let t = tm.create("n".to_string(), at(0)).unwrap();
        tm.add(t);
    }
    let all = tm.all();
    for i in 0..all.len() {
        for j in 0..all.len() {
            if i != j {
                assert_ne!(all[i].id, all[j].id);
            }
        }
    }
}

#[test]
fn create_gives_fresh_unfinished_task() {
    let tm = TaskManager::load(&"ab12|x|0|false\n".to_string()).unwrap();
    let t = tm.create("Walk".to_string(), at(99)).unwrap();
    assert_ne!(t.id, "ab12");
    assert_eq!(t.name, "Walk");
    assert_eq!(t.date, at(99));
    assert!(!t.done);
}

#[test]
fn random_id_is_four_lowercase_alphanumerics() {
    for _ in 0..100 {
        let id = get_random_id();
        assert_eq!(id.chars().count(), 4);
        assert!(id.chars().all(|c| c.is_ascii_lowercase() || c.is_ascii_digit()));
    }
}

#[test]
fn clean_manager_writes_nothing() {
    let tm = TaskManager::load(&"ab12|x|0|false\n".to_string()).unwrap();
    assert!(!tm.is_dirty());
    assert_eq!(tm.sync(), None);
}

#[test]
fn each_mutation_asks_for_one_write() {
    let text = "ab12|x|0|false\ncd34|y|1|false\n".to_string();
    let mut tm = TaskManager::load(&text).unwrap();
    tm.add(task("ef56", "z", 2));
    assert_eq!(tm.sync(), Some("ab12|x|0|false\ncd34|y|1|false\nef56|z|2|false\n".to_string()));
    tm.synced();
    assert_eq!(tm.sync(), None);
    tm.done("cd34".to_string());
    assert!(tm.sync().is_some());
    tm.synced();
    tm.remove("ab12".to_string());
    assert_eq!(tm.sync(), Some("cd34|y|1|true\nef56|z|2|false\n".to_string()));
}

#[test]
fn done_stays_done() {
    let mut tm = TaskManager::load(&"ab12|x|0|true\n".to_string()).unwrap();
    tm.done("ab12".to_string());
    tm.add(task("cd34", "y", 1));
    tm.remove("cd34".to_string());
    tm.done("zz00".to_string());
    assert!(tm.all()[0].done);
}

#[test]
fn removing_twice_changes_nothing_the_second_time() {
    let mut tm = TaskManager::load(&"ab12|x|0|false\ncd34|y|1|false\n".to_string()).unwrap();
    tm.remove("ab12".to_string());
    assert_eq!(tm.all().len(), 1);
    tm.synced();
    tm.remove("ab12".to_string());
    assert_eq!(tm.all().len(), 1);
    assert_eq!(tm.all()[0].id, "cd34");
    assert!(!tm.is_dirty());
}

#[test]
fn empty_store_loads_empty() {
    let tm = TaskManager::load(&String::new()).unwrap();
    assert!(tm.all().is_empty());
    assert!(tm.unfinished().is_empty());
}

#[test]
fn add_then_sync_writes_one_line() {
    let mut tm = TaskManager::load(&String::new()).unwrap();
    tm.add(task("ab12", "Buy milk", 1700000000));
    assert_eq!(tm.sync(), Some("ab12|Buy milk|1700000000|false\n".to_string()));
}

#[test]
fn escaped_pipe_in_stored_name() {
    let tm = TaskManager::load(&"xy9k|Pay\\|check|1700000000|false".to_string()).unwrap();
    assert_eq!(tm.all().len(), 1);
    assert_eq!(tm.all()[0].name, "Pay|check");
    assert_eq!(tm.all()[0].id, "xy9k");
}

#[test]
fn done_marks_and_hides_from_unfinished() {
    let mut tm = TaskManager::load(&"ab12|Buy milk|1700000000|false\ncd34|Other|5|false\n".to_string()).unwrap();
    tm.done("ab12".to_string());
    assert!(tm.all()[0].done);
    assert!(tm.is_dirty());
    assert_eq!(
        tm.sync(),
        Some("ab12|Buy milk|1700000000|true\ncd34|Other|5|false\n".to_string())
    );
    let open: Vec<&str> = tm.unfinished().iter().map(|t| t.id.as_str()).collect();
    assert_eq!(open, vec!["cd34"]);
}

#[test]
fn removing_absent_id_is_a_no_op() {
    let mut tm = TaskManager::load(&"ab12|x|0|false\n".to_string()).unwrap();
    tm.remove("zz00".to_string());
    assert_eq!(tm.all().len(), 1);
    assert!(!tm.is_dirty());
    assert_eq!(tm.sync(), None);
}

#[test]
fn three_fields_is_malformed() {
    let r = TaskManager::load(&"ab12|x|0\n".to_string());
    assert_eq!(r.err(), Some(TaskError::MalformedRecord));
}

#[test]
fn five_fields_is_malformed() {
    assert_eq!(Task::parse("ab12|x|0|false|".to_string()).err(), Some(TaskError::MalformedRecord));
}

#[test]
fn bad_fields_are_malformed() {
    for line in ["ab12|x|zero|false", "ab12|x|0|yes", "ab12|x||false", "ab12|x|-|false", "ab12|x|0|True"] {
        assert_eq!(Task::parse(line.to_string()).err(), Some(TaskError::MalformedRecord));
    }
}

#[test]
fn unrepresentable_date_is_malformed() {
    assert_eq!(
        Task::parse("ab12|x|9223372036854775807|false".to_string()).err(),
        Some(TaskError::MalformedRecord)
    );
    assert!(Task::parse("ab12|x|+42|false".to_string()).unwrap().date.secs == 42);
}

#[test]
fn one_bad_line_fails_the_whole_load() {
    let text = "ab12|x|0|false\nbroken\ncd34|y|1|false\n".to_string();
    assert_eq!(parse_store(&text).err(), Some(TaskError::MalformedRecord));
    assert_eq!(parse_store(&"ab12|x|0|false\n\n".to_string()).err(), Some(TaskError::MalformedRecord));
}

#[test]
fn store_text_round_trip() {
    let tasks = vec![task("ab12", "a|b", 3), task("cd34", "c", -4)];
    let text = render(&tasks);
    assert_eq!(text, "ab12|a\\|b|3|false\ncd34|c|-4|false\n");
    let back = parse_store(&text).unwrap();
    assert_eq!(back.len(), 2);
    assert_eq!(back[0].name, "a|b");
    assert_eq!(back[1].date.secs, -4);
}

#[test]
fn integers_as_text() {
    for v in [0i64, 7, -7, 10, 1700000000, i64::MAX, i64::MIN] {
        let text = int_to_chars(v);
        let s: String = text.iter().collect();
        assert_eq!(s, v.to_string());
        assert_eq!(chars_to_int(&text), Some(v));
    }
    let too_big: Vec<char> = "9223372036854775808".chars().collect();
    assert_eq!(chars_to_int(&too_big), None);
}

#[test]
fn tasks_equal_by_id() {
    assert!(task("ab12", "x", 0) == task("ab12", "y", 5));
    assert!(task("ab12", "x", 0) != task("cd34", "x", 0));
}

#[test]
fn get_index_finds_first() {
    let tm = TaskManager::load(&"ab12|x|0|false\ncd34|y|1|false\n".to_string()).unwrap();
    assert_eq!(tm.get_index("cd34".to_string()), Some(1));
    assert_eq!(tm.get_index("zz00".to_string()), None);
}

#[test]
fn pretty_line_by_urgency() {
    let t = task("ab12", "Walk", 0);
    assert_eq!(t.pretty(30, 5), "\u{1b}[1;32mab12 : Walk | Jan 01, 12:00 am\u{1b}[0m");
    assert_eq!(t.pretty(32, 1), "\u{1b}[1;33mab12 : Walk   | Jan 01, 12:00 am\u{1b}[0m");
    assert_eq!(t.pretty(26, -1), "\u{1b}[1;31mab12 : Walk | Jan 01, 12:00 am\u{1b}[0m");
    let far = task("x", "n", i64::MAX);
    assert_eq!(far.pretty(27, 3), "\u{1b}[1;32mx    : n | 9223372036854775807\u{1b}[0m");
}

#[test]
fn name_ending_in_backslash_does_not_read_back() {
    let t = task("ab12", "a\\", 5);
    assert_eq!(t.to_string(), "ab12|a\\|5|false");
    assert_eq!(Task::parse(t.to_string()).err(), Some(TaskError::MalformedRecord));
}

#[test]
fn checked_variants_report_missing_ids() {
    let mut tm = TaskManager::load(&"ab12|x|0|false\n".to_string()).unwrap();
    assert_eq!(tm.done_checked("zz00".to_string()), Err(TaskError::TaskNotFound));
    assert_eq!(tm.remove_checked("zz00".to_string()), Err(TaskError::TaskNotFound));
    assert!(!tm.is_dirty());
    assert_eq!(tm.done_checked("ab12".to_string()), Ok(()));
    assert!(tm.all()[0].done);
    assert_eq!(tm.remove_checked("ab12".to_string()), Ok(()));
    assert!(tm.all().is_empty());
    assert!(tm.is_dirty());
}

#[test]
fn add_new_appends_a_fresh_task() {
    let mut tm = TaskManager::load(&"ab12|x|0|false\n".to_string()).unwrap();
    let t = tm.add_new("Pay rent".to_string(), Some(at(1700000000))).unwrap();
    assert_eq!(tm.all().len(), 2);
    assert_eq!(tm.all()[1].id, t.id);
    assert_eq!(tm.all()[1].name, "Pay rent");
    assert_eq!(tm.all()[1].date, at(1700000000));
    assert!(!tm.all()[1].done);
    assert_ne!(t.id, "ab12");
    assert!(tm.is_dirty());
}

#[test]
fn add_new_without_a_date_is_invalid() {
    let mut tm = TaskManager::load(&String::new()).unwrap();
    assert_eq!(tm.add_new("x".to_string(), None).err(), Some(TaskError::InvalidDate));
    assert!(tm.all().is_empty());
    assert!(!tm.is_dirty());
}

#[test]
fn accept_id_takes_only_unused_ids() {
    let tm = TaskManager::load(&"ab12|x|0|false\n".to_string()).unwrap();
    assert!(tm.accept_id("ab12".to_string(), "y".to_string(), at(3)).is_none());
    let t = tm.accept_id("cd34".to_string(), "y".to_string(), at(3)).unwrap();
    assert_eq!(t.id, "cd34");
    assert_eq!(t.name, "y");
    assert_eq!(t.date, at(3));
    assert!(!t.done);
}
