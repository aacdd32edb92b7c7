use desktop_utils::outputs::remove_failed;

#[test]
fn failed_outputs_are_removed_from_the_top_down() {
    let mut outputs = vec!['a', 'b', 'c', 'd', 'e'];
    remove_failed(&mut outputs, &vec![true, false, true, false, true]);
    assert_eq!(outputs, vec!['a', 'e', 'c']);
}

#[test]
fn all_succeeded_keeps_everything() {
    let mut outputs = vec![1, 2, 3];
    remove_failed(&mut outputs, &vec![true, true, true]);
    assert_eq!(outputs, vec![1, 2, 3]);
}

#[test]
fn all_failed_removes_everything() {
    let mut outputs = vec![1, 2, 3];
    remove_failed(&mut outputs, &vec![false, false, false]);
    assert!(outputs.is_empty());
}

#[test]
fn last_output_failed() {
    let mut outputs = vec![1, 2, 3];
    remove_failed(&mut outputs, &vec![true, true, false]);
    assert_eq!(outputs, vec![1, 2]);
}

#[test]
fn kept_outputs_are_those_that_succeeded() {
    let mut outputs: Vec<u32> = (0..10).collect();
    let ok: Vec<bool> = (0..10).map(|i| i % 3 != 0).collect();
    remove_failed(&mut outputs, &ok);
    let mut sorted = outputs.clone();
    sorted.sort();
    assert_eq!(sorted, vec![1, 2, 4, 5, 7, 8]);
}
