use fashion_mnist_rust::dataset::{scan_dataset, CsvError, FIELDS, PIXELS};

fn header() -> String {
    "label,".to_string() + &(1..=784).map(|i| format!("pixel{}", i)).collect::<Vec<_>>().join(",")
}

fn text(s: &str, span: (usize, usize)) -> &str {
    &s[span.0..span.1]
}

#[test]
fn test_load_valid_csv() {
    let row: String = "3,".to_string() + &vec!["0"; 784].join(",");
    let csv = format!("{}\n{}\n", header(), row);
    let scan = scan_dataset(csv.as_bytes());
    assert!(scan.fault.is_none());
    assert_eq!(scan.rows.len(), 1);
    assert_eq!(scan.rows[0].label, 3);
    assert_eq!(scan.rows[0].row, 2);
    assert_eq!(scan.rows[0].pixels.len(), PIXELS);
    assert!(scan.rows[0].pixels.iter().all(|&p| text(&csv, p) == "0"));
}

#[test]
fn test_pixel_normalization() {
    let mut pixel_vals = vec!["0"; 784];
    pixel_vals[0] = "255";
    let row = "0,".to_string() + &pixel_vals.join(",");
    let csv = format!("{}\n{}\n", header(), row);
    let scan = scan_dataset(csv.as_bytes());
    assert!(scan.fault.is_none());
    let first = text(&csv, scan.rows[0].pixels[0]);
    assert_eq!(first, "255");
    assert_eq!(first.parse::<f64>().unwrap() / 255.0, 1.0);
}

#[test]
fn test_wrong_field_count_returns_err() {
    let csv = "label,pixel1,pixel2\n1,5,10\n";
    let scan = scan_dataset(csv.as_bytes());
    assert_eq!(scan.fault, Some(CsvError::FieldCount { row: 2, found: 3 }));
    assert!(scan.rows.is_empty());
}

#[test]
fn invalid_label_is_reported_with_its_text() {
    let row: String = "x7,".to_string() + &vec!["1"; 784].join(",");
    let good: String = "4,".to_string() + &vec!["2"; 784].join(",");
    let csv = format!("{}\n{}\n{}\n", header(), good, row);
    let scan = scan_dataset(csv.as_bytes());
    assert_eq!(scan.rows.len(), 1);
    assert_eq!(scan.rows[0].label, 4);
    match scan.fault {
        Some(CsvError::InvalidLabel { row, start, end }) => {
            assert_eq!(row, 3);
            assert_eq!(&csv[start..end], "x7");
        }
        other => panic!("unexpected outcome {:?}", other),
    }
}

#[test]
fn blank_lines_are_skipped_and_rows_numbered_from_header() {
    let a: String = "1,".to_string() + &vec!["0"; 784].join(",");
    let b: String = "9,".to_string() + &vec!["0"; 784].join(",");
    let csv = format!("{}\r\n{}\r\n   \r\n\n{}", header(), a, b);
    let scan = scan_dataset(csv.as_bytes());
    assert!(scan.fault.is_none());
    assert_eq!(scan.rows.len(), 2);
    assert_eq!((scan.rows[0].row, scan.rows[0].label), (2, 1));
    assert_eq!((scan.rows[1].row, scan.rows[1].label), (5, 9));
    assert_eq!(text(&csv, scan.rows[0].pixels[783]), "0");
}

#[test]
fn header_only_gives_no_rows() {
    let scan = scan_dataset(b"label,pixel1\n");
    assert!(scan.fault.is_none());
    assert!(scan.rows.is_empty());
    let scan = scan_dataset(b"");
    assert!(scan.fault.is_none());
    assert!(scan.rows.is_empty());
}

#[test]
fn scanning_stops_at_first_bad_line() {
    let good: String = "2,".to_string() + &vec!["0"; 784].join(",");
    let csv = format!("{}\n{}\n1,2\n{}\n", header(), good, good);
    let scan = scan_dataset(csv.as_bytes());
    assert_eq!(scan.rows.len(), 1);
    assert_eq!(scan.fault, Some(CsvError::FieldCount { row: 3, found: 2 }));
    assert_eq!(FIELDS, 785);
}
