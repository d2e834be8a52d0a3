use fashion_mnist_rust::weights::{render_weights, scan_weights, LayerText, WeightsFault};

const FORMAT_HEADER: &str = "FASHION_MNIST_WEIGHTS_V1";

fn layer(input: usize, output: usize, seed: usize) -> LayerText {
    let value = |k: usize| format!("{}", (k * 7 + seed) as f64 / 8.0 - 1.5).into_bytes();
    LayerText {
        input_size: input,
        output_size: output,
        weights: (0..input * output).map(value).collect(),
        biases: (0..output).map(|k| value(k + 100)).collect(),
    }
}

fn test_layers() -> Vec<LayerText> {
    vec![layer(4, 3, 1), layer(3, 2, 5)]
}

fn texts(s: &[u8], spans: &[(usize, usize)]) -> Vec<Vec<u8>> {
    spans.iter().map(|&(a, b)| s[a..b].to_vec()).collect()
}

#[test]
fn test_save_then_load_restores_identical_weights() {
    let layers = test_layers();
    let out = render_weights(&layers);
    let scan = scan_weights(&out, &[(4, 3), (3, 2)]);
    assert!(scan.fault.is_none());
    assert_eq!(scan.layers.len(), 2);
    for (k, l) in layers.iter().enumerate() {
        assert_eq!(texts(&out, &scan.layers[k].weights), l.weights);
        assert_eq!(texts(&out, &scan.layers[k].biases), l.biases);
    }
    assert!(scan.pending_weights.is_empty() && scan.pending_biases.is_empty());
}

#[test]
fn test_load_wrong_architecture_returns_err() {
    let out = render_weights(&test_layers());
    let scan = scan_weights(&out, &[(4, 5)]);
    assert_eq!(scan.fault, Some(WeightsFault::LayerCountMismatch { in_file: 2, in_network: 1 }));
    assert!(scan.layers.is_empty());
}

#[test]
fn test_load_corrupted_header_returns_err() {
    let text = b"NOT_THE_RIGHT_HEADER\nLAYERS 1\n";
    let scan = scan_weights(text, &[(4, 3), (3, 2)]);
    assert_eq!(scan.fault, Some(WeightsFault::BadHeader { start: 0, end: 20 }));
}

#[test]
fn test_save_creates_readable_file() {
    let out = render_weights(&test_layers());
    let contents = String::from_utf8(out).unwrap();
    assert!(contents.starts_with(FORMAT_HEADER));
    assert!(contents.contains("LAYERS 2"));
    assert!(contents.contains("LAYER 0 4 3"));
    assert!(contents.contains("LAYER 1 3 2"));
}

#[test]
fn rendered_text_is_exact() {
    let l = LayerText {
        input_size: 2,
        output_size: 1,
        weights: vec![b"0.5".to_vec(), b"-1".to_vec()],
        biases: vec![b"0".to_vec()],
    };
    let out = render_weights(&vec![l]);
    assert_eq!(
        String::from_utf8(out).unwrap(),
        "FASHION_MNIST_WEIGHTS_V1\nLAYERS 1\nLAYER 0 2 1\n0.5 -1\n0\n"
    );
    assert_eq!(String::from_utf8(render_weights(&vec![])).unwrap(), "FASHION_MNIST_WEIGHTS_V1\nLAYERS 0\n");
}

#[test]
fn shape_mismatch_names_both_shapes() {
    let out = render_weights(&test_layers());
    let scan = scan_weights(&out, &[(4, 3), (3, 4)]);
    assert_eq!(scan.layers.len(), 1);
    assert_eq!(
        scan.fault,
        Some(WeightsFault::ShapeMismatch { layer: 1, file_input: 3, file_output: 2, net_input: 3, net_output: 4 })
    );
}

#[test]
fn every_fault_of_the_layout() {
    let shapes = [(2usize, 1usize)];
    let cases: Vec<(&str, WeightsFault)> = vec![
        ("", WeightsFault::Empty),
        ("FASHION_MNIST_WEIGHTS_V1\n", WeightsFault::MissingLayerCount),
        ("FASHION_MNIST_WEIGHTS_V1\nLAYERS x\n", WeightsFault::BadLayerCount { start: 25, end: 33 }),
        ("FASHION_MNIST_WEIGHTS_V1\nLAYERS 1\n", WeightsFault::MissingLayerHeader { layer: 0 }),
        ("FASHION_MNIST_WEIGHTS_V1\nLAYERS 1\nLAYR 0 2 1\n", WeightsFault::BadLayerHeader { start: 34, end: 44 }),
        ("FASHION_MNIST_WEIGHTS_V1\nLAYERS 1\nLAYER 0 a 1\n", WeightsFault::BadInputSize { start: 34, end: 45 }),
        ("FASHION_MNIST_WEIGHTS_V1\nLAYERS 1\nLAYER 0 2 b\n", WeightsFault::BadOutputSize { start: 34, end: 45 }),
        ("FASHION_MNIST_WEIGHTS_V1\nLAYERS 1\nLAYER 0 2 1\n", WeightsFault::MissingWeights { layer: 0 }),
        (
            "FASHION_MNIST_WEIGHTS_V1\nLAYERS 1\nLAYER 0 2 1\n1 2 3\n",
            WeightsFault::WeightCount { layer: 0, expected: 2, found: 3 },
        ),
        ("FASHION_MNIST_WEIGHTS_V1\nLAYERS 1\nLAYER 0 2 1\n1 2\n", WeightsFault::MissingBiases { layer: 0 }),
        (
            "FASHION_MNIST_WEIGHTS_V1\nLAYERS 1\nLAYER 0 2 1\n1 2\n\n",
            WeightsFault::BiasCount { layer: 0, expected: 1, found: 0 },
        ),
        ("FASHION_MNIST_WEIGHTS_V1\nLAYERS 3\n", WeightsFault::LayerCountMismatch { in_file: 3, in_network: 1 }),
    ];
    for (text, fault) in cases {
        let scan = scan_weights(text.as_bytes(), &shapes);
        assert_eq!(scan.fault, Some(fault), "text {:?}", text);
        assert!(scan.layers.is_empty());
    }
}

#[test]
fn values_before_a_fault_are_handed_back() {
    let text = "FASHION_MNIST_WEIGHTS_V1\nLAYERS 1\nLAYER 0 2 1\n1 zz\n3 4\n";
    let scan = scan_weights(text.as_bytes(), &[(2, 1)]);
    assert_eq!(scan.fault, Some(WeightsFault::BiasCount { layer: 0, expected: 1, found: 2 }));
    assert_eq!(texts(text.as_bytes(), &scan.pending_weights), vec![b"1".to_vec(), b"zz".to_vec()]);
    assert_eq!(texts(text.as_bytes(), &scan.pending_biases), vec![b"3".to_vec(), b"4".to_vec()]);
}

#[test]
fn crlf_lines_and_trailing_text_are_accepted() {
    let text = "FASHION_MNIST_WEIGHTS_V1\r\nLAYERS 1\r\nLAYER 7 2 1\r\n 1.5   -2 \r\n0\r\nextra";
    let scan = scan_weights(text.as_bytes(), &[(2, 1)]);
    assert!(scan.fault.is_none());
    assert_eq!(texts(text.as_bytes(), &scan.layers[0].weights), vec![b"1.5".to_vec(), b"-2".to_vec()]);
    assert_eq!(texts(text.as_bytes(), &scan.layers[0].biases), vec![b"0".to_vec()]);
}
