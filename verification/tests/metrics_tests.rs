use fashion_mnist_rust::metrics::ConfusionMatrix;

fn percent(correct: usize, total: usize) -> f64 {
    if total == 0 {
        0.0
    } else {
        correct as f64 / total as f64 * 100.0
    }
}

#[test]
fn test_perfect_predictions_all_diagonal() {
    let predictions = vec![0, 1, 2, 0, 1, 2];
    let actuals = vec![0, 1, 2, 0, 1, 2];
    let cm = ConfusionMatrix::build(&predictions, &actuals, 3);
    assert_eq!(cm.get(0, 0), 2);
    assert_eq!(cm.get(1, 1), 2);
    assert_eq!(cm.get(2, 2), 2);
    assert_eq!(cm.get(0, 1), 0);
    assert_eq!(cm.get(1, 2), 0);
    let (correct, total) = cm.overall_counts();
    assert_eq!(percent(correct, total), 100.0);
}

#[test]
fn test_confusion_matrix_counts_specific_mistakes() {
    let predictions = vec![1, 1, 0];
    let actuals = vec![0, 0, 0];
    let cm = ConfusionMatrix::build(&predictions, &actuals, 2);
    assert_eq!(cm.get(0, 1), 2);
    assert_eq!(cm.get(0, 0), 1);
}

#[test]
fn test_per_class_accuracy() {
    let predictions = vec![0, 0, 1, 1, 1];
    let actuals = vec![0, 0, 0, 1, 1];
    let cm = ConfusionMatrix::build(&predictions, &actuals, 2);
    let (c0, t0) = cm.class_counts(0);
    let (c1, t1) = cm.class_counts(1);
    assert_eq!((c0, t0), (2, 3));
    assert_eq!((c1, t1), (2, 2));
    assert!((percent(c0, t0) - 66.666).abs() < 0.01);
    assert!((percent(c1, t1) - 100.0).abs() < 0.01);
}

#[test]
fn test_per_class_accuracy_zero_samples_returns_zero() {
    let predictions = vec![0, 1];
    let actuals = vec![0, 1];
    let cm = ConfusionMatrix::build(&predictions, &actuals, 3);
    let (correct, total) = cm.class_counts(2);
    assert_eq!((correct, total), (0, 0));
    assert_eq!(percent(correct, total), 0.0);
}

#[test]
fn test_overall_accuracy_matches_manual_calculation() {
    let predictions = vec![0, 1, 2, 0, 1];
    let actuals = vec![0, 1, 1, 1, 1];
    let cm = ConfusionMatrix::build(&predictions, &actuals, 3);
    let (correct, total) = cm.overall_counts();
    assert_eq!((correct, total), (3, 5));
    assert!((percent(correct, total) - 60.0).abs() < 0.01);
}

#[test]
fn confusion_cells_sum_to_sample_count() {
    let predictions: Vec<usize> = (0..50).map(|i| i % 10).collect();
    let actuals: Vec<usize> = (0..50).map(|i| (i + 1) % 10).collect();
    let cm = ConfusionMatrix::build(&predictions, &actuals, 10);
    let mut sum = 0;
    for a in 0..10 {
        let mut row = 0;
        for p in 0..10 {
            row += cm.get(a, p);
        }
        assert_eq!(row, cm.row_total(a));
        assert_eq!(row, 5);
        sum += row;
    }
    assert_eq!(sum, 50);
    assert_eq!(cm.overall_counts(), (0, 50));
    assert_eq!(cm.get(1, 0), 5);
    assert_eq!(cm.n_classes(), 10);
}

#[test]
fn empty_input_gives_empty_counts() {
    let cm = ConfusionMatrix::build(&[], &[], 4);
    assert_eq!(cm.overall_counts(), (0, 0));
    assert_eq!(cm.class_counts(3), (0, 0));
    assert_eq!(cm.classes_by_accuracy(), vec![0, 1, 2, 3]);
}

#[test]
fn classes_ranked_worst_to_best() {
    // class 0: 2/3, class 1: 2/2, class 2: 0/1, class 3: no samples
    let predictions = vec![0, 0, 1, 1, 1, 0];
    let actuals = vec![0, 0, 0, 1, 1, 2];
    let cm = ConfusionMatrix::build(&predictions, &actuals, 4);
    assert_eq!(cm.classes_by_accuracy(), vec![2, 3, 0, 1]);
}

#[test]
fn ranking_ties_keep_class_order() {
    // classes 0 and 2 both at 1/2, class 1 at 1/1
    let predictions = vec![0, 1, 1, 2, 0];
    let actuals = vec![0, 0, 1, 2, 2];
    let cm = ConfusionMatrix::build(&predictions, &actuals, 3);
    assert_eq!(cm.classes_by_accuracy(), vec![0, 2, 1]);
}

/// The table exactly as the program's report lays it out.
fn expected_table(cm: &ConfusionMatrix, class_names: &[&str]) -> String {
    let n = cm.n_classes();
    let mut out = String::from("\nConfusion Matrix (rows=actual, cols=predicted):\n");
    out += &format!("{:>14}", "");
    for j in 0..n {
        out += &format!("{:>6}", j);
    }
    out += "\n";
    for i in 0..n {
        let label = if i < class_names.len() { class_names[i] } else { "?" };
        let short: String = label.chars().take(13).collect();
        out += &format!("{:>14}", short);
        for j in 0..n {
            let count = cm.get(i, j);
            if i == j {
                out += &format!("{:>5}*", count);
            } else {
                out += &format!("{:>6}", count);
            }
        }
        out += "\n";
    }
    out += "\n";
    out
}

fn table(cm: &ConfusionMatrix, class_names: &[&str]) -> String {
    let names: Vec<Vec<u8>> = class_names.iter().map(|n| n.as_bytes().to_vec()).collect();
    String::from_utf8(cm.table_text(&names)).unwrap()
}

#[test]
fn test_print_does_not_panic() {
    let predictions: Vec<usize> = (0..50).map(|i| i % 10).collect();
    let actuals: Vec<usize> = (0..50).map(|i| (i + 1) % 10).collect();
    let class_names = [
        "T-shirt/top", "Trouser", "Pullover", "Dress", "Coat",
        "Sandal", "Shirt", "Sneaker", "Bag", "Ankle boot",
    ];
    let cm = ConfusionMatrix::build(&predictions, &actuals, 10);
    assert_eq!(table(&cm, &class_names), expected_table(&cm, &class_names));
    assert_eq!(cm.classes_by_accuracy().len(), 10);
}

#[test]
fn table_cuts_long_names_and_marks_missing_ones() {
    let predictions = vec![0, 1, 1, 2, 2, 2, 0];
    let actuals = vec![0, 1, 0, 2, 2, 2, 2];
    let cm = ConfusionMatrix::build(&predictions, &actuals, 3);
    let names = ["A rather long class name", "Ünïcödé näme thát is löng"];
    assert_eq!(table(&cm, &names), expected_table(&cm, &names));
    let text = table(&cm, &names);
    assert!(text.contains(" A rather long    1*     1     0\n"));
    assert!(text.contains("             ?     1     0    3*\n"));
    let big = ConfusionMatrix::build(&vec![0; 1234567], &vec![0; 1234567], 1);
    assert_eq!(table(&big, &["x"]), expected_table(&big, &["x"]));
    let empty = ConfusionMatrix::build(&[], &[], 0);
    assert_eq!(table(&empty, &[]), "\nConfusion Matrix (rows=actual, cols=predicted):\n              \n\n");
}
