use wasm_migrate::host::{elapsed_nanoseconds, restore_memory, should_migrate};

#[test]
fn migrates_after_more_than_the_limit() {
    let mut checkpoint_num: i32 = 0;
    let mut answers: Vec<i32> = Vec::new();
    for _ in 0..9 {
        answers.push(should_migrate(&mut checkpoint_num, 2));
    }
    assert_eq!(answers, vec![0, 0, 0, 1, 0, 0, 0, 1, 0]);
    assert_eq!(checkpoint_num, 1);
}

#[test]
fn negative_limit_migrates_at_once() {
    let mut checkpoint_num: i32 = 0;
    assert_eq!(should_migrate(&mut checkpoint_num, -1), 1);
    assert_eq!(checkpoint_num, 0);
}

#[test]
fn memory_is_restored_only_when_resuming() {
    let mut memory = [9u8, 9, 9, 9];
    restore_memory(&mut memory, &[1, 2], false);
    assert_eq!(memory, [9, 9, 9, 9]);
    restore_memory(&mut memory, &[1, 2, 3, 4, 5], false);
    assert_eq!(memory, [9, 9, 9, 9]);
    restore_memory(&mut memory, &[1, 2], true);
    assert_eq!(memory, [1, 2, 9, 9]);
    restore_memory(&mut memory, &[4, 3, 2, 1], true);
    assert_eq!(memory, [4, 3, 2, 1]);
}

#[test]
fn elapsed_time_is_the_distance_of_both_points() {
    assert_eq!(elapsed_nanoseconds(1, 5, 1, 25), 20);
    assert_eq!(elapsed_nanoseconds(1, 0, 3, 7), 2_000_000_007);
    assert_eq!(elapsed_nanoseconds(3, 10, 2, 30), 999_999_980);
    assert_eq!(elapsed_nanoseconds(1, 999_999_999, 2, 1), 2);
    assert_eq!(elapsed_nanoseconds(0, 0, 0, 0), 0);
}

#[test]
fn the_times_of_stretches_add_up() {
    let whole = elapsed_nanoseconds(1, 900_000_000, 4, 100_000_000);
    let parts = elapsed_nanoseconds(1, 900_000_000, 3, 200_000_000) + elapsed_nanoseconds(3, 200_000_000, 4, 100_000_000);
    assert_eq!(whole, 2_200_000_000);
    assert_eq!(parts, whole);
}
