use comparer_rust::compare::{batch_sizes, compare_batch};

fn strings(v: &[&str]) -> Vec<String> {
    v.iter().map(|s| s.to_string()).collect()
}

#[test]
fn identical_outcomes_yield_no_mismatch() {
    // The same executable in both slots answers every input identically.
    let inputs: Vec<String> = (0..20).map(|i| format!("{} {}", i, i + 1)).collect();
    let outputs: Vec<String> = (0..20).map(|i| format!("{}", 2 * i + 1)).collect();
    let mismatches = compare_batch(&inputs, &outputs, &outputs.clone());
    assert_eq!(mismatches.len(), 0);
}

#[test]
fn diverging_outcomes_yield_one_mismatch() {
    // Reference computes a+b, candidate computes a-b: on "3 4" they differ.
    let inputs = strings(&["3 4"]);
    let reference = strings(&["7"]);
    let candidate = strings(&["-1"]);
    let mismatches = compare_batch(&inputs, &reference, &candidate);
    assert_eq!(mismatches.len(), 1);
    assert_eq!(mismatches[0].index, 0);
    assert_eq!(mismatches[0].input, "3 4");
    assert_eq!(mismatches[0].reference_output, "7");
    assert_eq!(mismatches[0].candidate_output, "-1");
}

#[test]
fn whitespace_tolerance_yields_no_mismatch() {
    // "5 \n" and "5\n\n\n" both normalize to "5\n".
    let inputs = strings(&["1 4"]);
    let reference = strings(&["5 \n"]);
    let candidate = strings(&["5\n\n\n"]);
    let mismatches = compare_batch(&inputs, &reference, &candidate);
    assert_eq!(mismatches.len(), 0);
}

#[test]
fn mismatches_keep_original_texts_and_order() {
    let inputs = strings(&["a", "b", "c"]);
    let reference = strings(&["1", "2 \n", "3"]);
    let candidate = strings(&["9", "2\n\n", "8"]);
    let mismatches = compare_batch(&inputs, &reference, &candidate);
    assert_eq!(mismatches.len(), 2);
    assert_eq!(mismatches[0].index, 0);
    assert_eq!(mismatches[0].reference_output, "1");
    assert_eq!(mismatches[0].candidate_output, "9");
    assert_eq!(mismatches[1].index, 2);
    assert_eq!(mismatches[1].input, "c");
}

#[test]
fn batch_sizes_truncate_the_last_batch() {
    assert_eq!(batch_sizes(25, 10), vec![10, 10, 5]);
    assert_eq!(batch_sizes(100, 10), vec![10; 10]);
    assert_eq!(batch_sizes(7, 10), vec![7]);
    assert_eq!(batch_sizes(0, 10), Vec::<usize>::new());
    assert_eq!(batch_sizes(10, 1), vec![1; 10]);
}
