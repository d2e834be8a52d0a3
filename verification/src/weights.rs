//! The plain-text weights format:
//!
//! ```text
//! FASHION_MNIST_WEIGHTS_V1
//! LAYERS <count>
//! LAYER <index> <input_size> <output_size>
//! <input_size * output_size weight values, separated by spaces>
//! <output_size bias values, separated by spaces>
//! ... (LAYER, weights and biases again for every dense layer)
//! ```
//!
//! Values are kept as their text; turning numbers into text and back
//! is left to the caller. Loading checks the layout against the shapes
//! of the network being filled in, layer by layer.

use vstd::prelude::*;
use crate::text::{lines, tokens, decimal, is_usize_text, usize_text_value, text_of, joined};
use crate::text::{line_block, clean_line, plain_word, plain_byte};
use crate::text::{lemma_line_block_concat, lemma_lines_of_block, lemma_tokens_of_words, lemma_decimal_reads_back, lemma_decimal_plain};
use crate::text::{split_lines, split_tokens, parse_usize, push_decimal, span_equals, push_all, texts};

verus! {

/// The first line of every weights file.
pub open spec fn header_text() -> Seq<u8> {
    seq![
        0x46u8, 0x41, 0x53, 0x48, 0x49, 0x4f, 0x4e, 0x5f, 0x4d, 0x4e, 0x49, 0x53, 0x54, 0x5f,
        0x57, 0x45, 0x49, 0x47, 0x48, 0x54, 0x53, 0x5f, 0x56, 0x31,
    ]
}

/// `LAYERS ` (with its trailing space), which starts the second line.
pub open spec fn count_prefix() -> Seq<u8> {
    seq![0x4cu8, 0x41, 0x59, 0x45, 0x52, 0x53, 0x20]
}

/// `LAYER`, the first word of each layer header.
pub open spec fn layer_word() -> Seq<u8> {
    seq![0x4cu8, 0x41, 0x59, 0x45, 0x52]
}

fn header_bytes() -> (v: Vec<u8>)
    ensures
        v@ == header_text(),
{
    let v = vec![
        0x46u8, 0x41, 0x53, 0x48, 0x49, 0x4f, 0x4e, 0x5f, 0x4d, 0x4e, 0x49, 0x53, 0x54, 0x5f,
        0x57, 0x45, 0x49, 0x47, 0x48, 0x54, 0x53, 0x5f, 0x56, 0x31,
    ];
    assert(v@ =~= header_text());
    v
}

fn count_prefix_bytes() -> (v: Vec<u8>)
    ensures
        v@ == count_prefix(),
{
    let v = vec![0x4cu8, 0x41, 0x59, 0x45, 0x52, 0x53, 0x20];
    assert(v@ =~= count_prefix());
    v
}

fn layer_word_bytes() -> (v: Vec<u8>)
    ensures
        v@ == layer_word(),
{
    let v = vec![0x4cu8, 0x41, 0x59, 0x45, 0x52];
    assert(v@ =~= layer_word());
    v
}

/// Exec spans `v` are the spec spans `t`.
pub open spec fn spans_match(v: Seq<(usize, usize)>, t: Seq<(int, int)>) -> bool {
    &&& v.len() == t.len()
    &&& forall|k: int| 0 <= k < v.len() ==> (#[trigger] v[k]).0 == t[k].0 && v[k].1 == t[k].1
}

// ---------------------------------------------------------------------
// Writing
// ---------------------------------------------------------------------

/// One dense layer to write: its shape and its values as text.
pub struct LayerText {
    pub input_size: usize,
    pub output_size: usize,
    pub weights: Vec<Vec<u8>>,
    pub biases: Vec<Vec<u8>>,
}

/// The three lines of layer `index`, each ending in a newline.
pub open spec fn layer_lines(index: nat, layer: LayerText) -> Seq<u8> {
    layer_word() + seq![0x20u8] + decimal(index) + seq![0x20u8] + decimal(
        layer.input_size as nat,
    ) + seq![0x20u8] + decimal(layer.output_size as nat) + seq![0x0au8] + joined(
        texts(layer.weights@),
    ) + seq![0x0au8] + joined(texts(layer.biases@)) + seq![0x0au8]
}

/// The lines of the layers before `k`.
pub open spec fn layers_text(layers: Seq<LayerText>, k: int) -> Seq<u8>
    decreases k,
{
    if k <= 0 {
        seq![]
    } else {
        layers_text(layers, k - 1) + layer_lines((k - 1) as nat, layers[k - 1])
    }
}

/// The whole file for `layers`.
pub open spec fn weights_text(layers: Seq<LayerText>) -> Seq<u8> {
    header_text() + seq![0x0au8] + count_prefix() + decimal(layers.len()) + seq![0x0au8]
        + layers_text(layers, layers.len() as int)
}

fn push_joined(out: &mut Vec<u8>, values: &Vec<Vec<u8>>)
    ensures
        final(out)@ == old(out)@ + joined(texts(values@)),
{
    let mut k: usize = 0;
    while k < values.len()
        invariant
            k <= values@.len(),
            out@ == old(out)@ + joined(texts(values@.subrange(0, k as int))),
        decreases values@.len() - k,
    {
        let ghost before = out@;
        if k > 0 {
            out.push(0x20);
        }
        push_all(out, &values[k]);
        proof {
            let t = texts(values@.subrange(0, k + 1));
            assert(t.drop_last() =~= texts(values@.subrange(0, k as int)));
            if k == 0 {
                assert(joined(texts(values@.subrange(0, 0))) =~= seq![]);
                assert(t.len() == 1);
            }
            assert(out@ =~= old(out)@ + joined(t));
        }
        k = k + 1;
    }
    proof {
        assert(values@.subrange(0, values@.len() as int) =~= values@);
    }
}

fn push_layer(out: &mut Vec<u8>, word: &Vec<u8>, k: usize, layer: &LayerText)
    requires
        word@ == layer_word(),
    ensures
        final(out)@ == old(out)@ + layer_lines(k as nat, *layer),
{
    let ghost before = out@;
    push_all(out, word);
    out.push(0x20);
    push_decimal(out, k);
    out.push(0x20);
    push_decimal(out, layer.input_size);
    out.push(0x20);
    push_decimal(out, layer.output_size);
    out.push(0x0a);
    let ghost after_header = out@;
    push_joined(out, &layer.weights);
    out.push(0x0a);
    push_joined(out, &layer.biases);
    out.push(0x0a);
    proof {
        let l = *layer;
        let head = layer_word() + seq![0x20u8] + decimal(k as nat) + seq![0x20u8] + decimal(
            l.input_size as nat,
        ) + seq![0x20u8] + decimal(l.output_size as nat) + seq![0x0au8];
        assert(after_header =~= before + head);
        let tail = joined(texts(l.weights@)) + seq![0x0au8] + joined(texts(l.biases@)) + seq![
            0x0au8,
        ];
        assert(out@ =~= after_header + tail);
        assert(layer_lines(k as nat, l) =~= head + tail);
    }
}

/// Writes the weights file for the given dense layers, in order.
pub fn render_weights(layers: &Vec<LayerText>) -> (out: Vec<u8>)
    ensures
        out@ == weights_text(layers@),
{
    let mut out: Vec<u8> = Vec::new();
    let header = header_bytes();
    push_all(&mut out, &header);
    out.push(0x0a);
    let prefix = count_prefix_bytes();
    push_all(&mut out, &prefix);
    push_decimal(&mut out, layers.len());
    out.push(0x0a);
    let ghost start = out@;
    let word = layer_word_bytes();
    let mut k: usize = 0;
    while k < layers.len()
        invariant
            k <= layers@.len(),
            word@ == layer_word(),
            out@ == start + layers_text(layers@, k as int),
        decreases layers@.len() - k,
    {
        push_layer(&mut out, &word, k, &layers[k]);
        proof {
            assert(out@ =~= start + layers_text(layers@, k + 1));
        }
        k = k + 1;
    }
    proof {
        assert(out@ =~= weights_text(layers@));
    }
    out
}

// ---------------------------------------------------------------------
// Reading
// ---------------------------------------------------------------------

/// Why a weights file does not fit the network. Spans are byte offsets
/// of a line of the file; layers are counted from 0.
#[derive(Debug, Clone, Copy, PartialEq, Eq, Structural)]
pub enum WeightsFault {
    /// The file has no lines.
    Empty,
    /// The first line is not the format header.
    BadHeader { start: usize, end: usize },
    /// There is no second line.
    MissingLayerCount,
    /// The second line is not `LAYERS ` followed by a count.
    BadLayerCount { start: usize, end: usize },
    /// The file and the network have different numbers of dense layers.
    LayerCountMismatch { in_file: usize, in_network: usize },
    /// The header line of a layer is missing.
    MissingLayerHeader { layer: usize },
    /// A layer header is not four words starting with `LAYER`.
    BadLayerHeader { start: usize, end: usize },
    /// The input size of a layer header is not a number.
    BadInputSize { start: usize, end: usize },
    /// The output size of a layer header is not a number.
    BadOutputSize { start: usize, end: usize },
    /// A layer's shape in the file differs from the network's.
    ShapeMismatch {
        layer: usize,
        file_input: usize,
        file_output: usize,
        net_input: usize,
        net_output: usize,
    },
    /// The weights line of a layer is missing.
    MissingWeights { layer: usize },
    /// A layer has the wrong number of weight values.
    WeightCount { layer: usize, expected: usize, found: usize },
    /// The biases line of a layer is missing.
    MissingBiases { layer: usize },
    /// A layer has the wrong number of bias values.
    BiasCount { layer: usize, expected: usize, found: usize },
}

/// What reading one layer gives: its weight and bias value spans, or a
/// fault together with the value spans read before it (which the
/// caller must check, in order, before reporting the fault).
pub enum LayerOutcome {
    Read(Seq<(int, int)>, Seq<(int, int)>),
    Fault(Seq<(int, int)>, Seq<(int, int)>, WeightsFault),
}

/// Reading layer `idx` (expected shape `shape` = (input, output)) from
/// the lines `ls`; its header is line `2 + 3 * idx`.
pub open spec fn layer_outcome(s: Seq<u8>, ls: Seq<(int, int)>, shape: (usize, usize), idx: int) -> LayerOutcome {
    let h = 2 + 3 * idx;
    if h >= ls.len() {
        LayerOutcome::Fault(seq![], seq![], WeightsFault::MissingLayerHeader { layer: idx as usize })
    } else {
        let line = ls[h];
        let parts = tokens(s, line.0, line.1);
        let here = (line.0 as usize, line.1 as usize);
        if parts.len() != 4 || text_of(s, parts[0]) != layer_word() {
            LayerOutcome::Fault(seq![], seq![], WeightsFault::BadLayerHeader { start: here.0, end: here.1 })
        } else if !is_usize_text(s, parts[2].0, parts[2].1) {
            LayerOutcome::Fault(seq![], seq![], WeightsFault::BadInputSize { start: here.0, end: here.1 })
        } else if !is_usize_text(s, parts[3].0, parts[3].1) {
            LayerOutcome::Fault(seq![], seq![], WeightsFault::BadOutputSize { start: here.0, end: here.1 })
        } else {
            let file_input = usize_text_value(s, parts[2].0, parts[2].1);
            let file_output = usize_text_value(s, parts[3].0, parts[3].1);
            if file_input != shape.0 || file_output != shape.1 {
                LayerOutcome::Fault(
                    seq![],
                    seq![],
                    WeightsFault::ShapeMismatch {
                        layer: idx as usize,
                        file_input: file_input as usize,
                        file_output: file_output as usize,
                        net_input: shape.0,
                        net_output: shape.1,
                    },
                )
            } else if h + 1 >= ls.len() {
                LayerOutcome::Fault(seq![], seq![], WeightsFault::MissingWeights { layer: idx as usize })
            } else {
                let w = tokens(s, ls[h + 1].0, ls[h + 1].1);
                if w.len() != shape.0 * shape.1 {
                    LayerOutcome::Fault(
                        w,
                        seq![],
                        WeightsFault::WeightCount {
                            layer: idx as usize,
                            expected: (shape.0 * shape.1) as usize,
                            found: w.len() as usize,
                        },
                    )
                } else if h + 2 >= ls.len() {
                    LayerOutcome::Fault(w, seq![], WeightsFault::MissingBiases { layer: idx as usize })
                } else {
                    let b = tokens(s, ls[h + 2].0, ls[h + 2].1);
                    if b.len() != shape.1 {
                        LayerOutcome::Fault(
                            w,
                            b,
                            WeightsFault::BiasCount {
                                layer: idx as usize,
                                expected: shape.1,
                                found: b.len() as usize,
                            },
                        )
                    } else {
                        LayerOutcome::Read(w, b)
                    }
                }
            }
        }
    }
}

/// What reading a weights file gives: the value spans of the layers
/// read in full, then the value spans read before the fault (weights,
/// biases), then the fault, if any.
#[verifier::ext_equal]
pub struct WeightsOutcome {
    pub layers: Seq<(Seq<(int, int)>, Seq<(int, int)>)>,
    pub pending_weights: Seq<(int, int)>,
    pub pending_biases: Seq<(int, int)>,
    pub fault: Option<WeightsFault>,
}

/// Reading the layers from `idx` on.
pub open spec fn layers_from(s: Seq<u8>, ls: Seq<(int, int)>, shapes: Seq<(usize, usize)>, idx: int) -> WeightsOutcome
    decreases shapes.len() - idx,
{
    if idx >= shapes.len() || idx < 0 {
        WeightsOutcome { layers: seq![], pending_weights: seq![], pending_biases: seq![], fault: None }
    } else {
        match layer_outcome(s, ls, shapes[idx], idx) {
            LayerOutcome::Read(w, b) => {
                let rest = layers_from(s, ls, shapes, idx + 1);
                WeightsOutcome { layers: seq![(w, b)] + rest.layers, ..rest }
            },
            LayerOutcome::Fault(w, b, f) => WeightsOutcome {
                layers: seq![],
                pending_weights: w,
                pending_biases: b,
                fault: Some(f),
            },
        }
    }
}

/// Only a fault, with nothing read.
pub open spec fn fault_only(f: WeightsFault) -> WeightsOutcome {
    WeightsOutcome { layers: seq![], pending_weights: seq![], pending_biases: seq![], fault: Some(f) }
}

/// Reading the weights file `s` into a network whose dense layers have
/// the (input, output) shapes `shapes`.
pub open spec fn read_weights(s: Seq<u8>, shapes: Seq<(usize, usize)>) -> WeightsOutcome {
    let ls = lines(s);
    if ls.len() == 0 {
        fault_only(WeightsFault::Empty)
    } else if text_of(s, ls[0]) != header_text() {
        fault_only(WeightsFault::BadHeader { start: ls[0].0 as usize, end: ls[0].1 as usize })
    } else if ls.len() < 2 {
        fault_only(WeightsFault::MissingLayerCount)
    } else {
        let l = ls[1];
        if !(l.1 - l.0 >= 7 && s.subrange(l.0, l.0 + 7) == count_prefix() && is_usize_text(
            s,
            l.0 + 7,
            l.1,
        )) {
            fault_only(WeightsFault::BadLayerCount { start: l.0 as usize, end: l.1 as usize })
        } else if usize_text_value(s, l.0 + 7, l.1) != shapes.len() {
            fault_only(
                WeightsFault::LayerCountMismatch {
                    in_file: usize_text_value(s, l.0 + 7, l.1) as usize,
                    in_network: shapes.len() as usize,
                },
            )
        } else {
            layers_from(s, ls, shapes, 0)
        }
    }
}

/// The value spans of one layer read in full.
pub struct LayerSpans {
    pub weights: Vec<(usize, usize)>,
    pub biases: Vec<(usize, usize)>,
}

/// The result of reading a weights file (see `WeightsOutcome`).
pub struct WeightsScan {
    pub layers: Vec<LayerSpans>,
    pub pending_weights: Vec<(usize, usize)>,
    pub pending_biases: Vec<(usize, usize)>,
    pub fault: Option<WeightsFault>,
}

/// The exec result `r` is the spec outcome `o`.
pub open spec fn scan_matches(r: WeightsScan, o: WeightsOutcome) -> bool {
    &&& r.layers@.len() == o.layers.len()
    &&& forall|k: int|
        0 <= k < r.layers@.len() ==> spans_match((#[trigger] r.layers@[k]).weights@, o.layers[k].0)
            && spans_match(r.layers@[k].biases@, o.layers[k].1)
    &&& spans_match(r.pending_weights@, o.pending_weights)
    &&& spans_match(r.pending_biases@, o.pending_biases)
    &&& r.fault == o.fault
}

fn fault_scan(f: WeightsFault) -> (r: WeightsScan)
    ensures
        scan_matches(r, fault_only(f)),
{
    WeightsScan { layers: Vec::new(), pending_weights: Vec::new(), pending_biases: Vec::new(), fault: Some(f) }
}

/// Reads layer `idx`, whose header is line `h`.
fn read_layer(
    s: &[u8],
    ls: &Vec<(usize, usize)>,
    word: &Vec<u8>,
    h: usize,
    shape: (usize, usize),
    idx: usize,
) -> (r: (Option<WeightsFault>, Vec<(usize, usize)>, Vec<(usize, usize)>))
    requires
        word@ == layer_word(),
        h == 2 + 3 * idx,
        h <= ls@.len(),
        shape.0 * shape.1 <= usize::MAX,
        forall|m: int| 0 <= m < ls@.len() ==> 0 <= (#[trigger] ls@[m]).0 <= ls@[m].1 <= s@.len(),
    ensures
        ({
            let lsi = Seq::new(ls@.len(), |m: int| (ls@[m].0 as int, ls@[m].1 as int));
            match layer_outcome(s@, lsi, shape, idx as int) {
                LayerOutcome::Read(w, b) => r.0 is None && spans_match(r.1@, w) && spans_match(r.2@, b),
                LayerOutcome::Fault(w, b, f) => r.0 == Some(f) && spans_match(r.1@, w) && spans_match(r.2@, b),
            }
        }),
{
    let ghost lsi = Seq::new(ls@.len(), |m: int| (ls@[m].0 as int, ls@[m].1 as int));
    if h >= ls.len() {
        return (Some(WeightsFault::MissingLayerHeader { layer: idx }), Vec::new(), Vec::new());
    }
    let (lo, hi) = ls[h];
    let parts = split_tokens(s, lo, hi);
    if parts.len() != 4 || !span_equals(s, parts[0].0, parts[0].1, word) {
        return (Some(WeightsFault::BadLayerHeader { start: lo, end: hi }), Vec::new(), Vec::new());
    }
    let file_input = match parse_usize(s, parts[2].0, parts[2].1) {
        Some(v) => v,
        None => {
            return (Some(WeightsFault::BadInputSize { start: lo, end: hi }), Vec::new(), Vec::new());
        },
    };
    let file_output = match parse_usize(s, parts[3].0, parts[3].1) {
        Some(v) => v,
        None => {
            return (Some(WeightsFault::BadOutputSize { start: lo, end: hi }), Vec::new(), Vec::new());
        },
    };
    if file_input != shape.0 || file_output != shape.1 {
        return (
            Some(
                WeightsFault::ShapeMismatch {
                    layer: idx,
                    file_input,
                    file_output,
                    net_input: shape.0,
                    net_output: shape.1,
                },
            ),
            Vec::new(),
            Vec::new(),
        );
    }
    if h + 1 >= ls.len() {
        return (Some(WeightsFault::MissingWeights { layer: idx }), Vec::new(), Vec::new());
    }
    let (wlo, whi) = ls[h + 1];
    let w = split_tokens(s, wlo, whi);
    let expected = shape.0 * shape.1;
    if w.len() != expected {
        let found = w.len();
        return (Some(WeightsFault::WeightCount { layer: idx, expected, found }), w, Vec::new());
    }
    if h + 2 >= ls.len() {
        return (Some(WeightsFault::MissingBiases { layer: idx }), w, Vec::new());
    }
    let (blo, bhi) = ls[h + 2];
    let b = split_tokens(s, blo, bhi);
    if b.len() != shape.1 {
        let found = b.len();
        return (Some(WeightsFault::BiasCount { layer: idx, expected: shape.1, found }), w, b);
    }
    (None, w, b)
}

/// Reads the weights file `s` for a network whose dense layers have
/// the (input, output) shapes `shapes`, in order (see `read_weights`).
pub fn scan_weights(s: &[u8], shapes: &[(usize, usize)]) -> (r: WeightsScan)
    requires
        forall|k: int| 0 <= k < shapes@.len() ==> (#[trigger] shapes@[k]).0 * shapes@[k].1 <= usize::MAX,
    ensures
        scan_matches(r, read_weights(s@, shapes@)),
{
    let ls = split_lines(s);
    let ghost lsi = Seq::new(ls@.len(), |m: int| (ls@[m].0 as int, ls@[m].1 as int));
    proof {
        assert(lsi =~= lines(s@));
    }
    if ls.len() == 0 {
        return fault_scan(WeightsFault::Empty);
    }
    let header = header_bytes();
    if !span_equals(s, ls[0].0, ls[0].1, &header) {
        return fault_scan(WeightsFault::BadHeader { start: ls[0].0, end: ls[0].1 });
    }
    if ls.len() < 2 {
        return fault_scan(WeightsFault::MissingLayerCount);
    }
    let (lo, hi) = ls[1];
    let prefix = count_prefix_bytes();
    let count = if hi - lo >= 7 && span_equals(s, lo, lo + 7, &prefix) {
        parse_usize(s, lo + 7, hi)
    } else {
        None
    };
    let count = match count {
        Some(c) => c,
        None => {
            return fault_scan(WeightsFault::BadLayerCount { start: lo, end: hi });
        },
    };
    if count != shapes.len() {
        return fault_scan(WeightsFault::LayerCountMismatch { in_file: count, in_network: shapes.len() });
    }
    let word = layer_word_bytes();
    let mut layers: Vec<LayerSpans> = Vec::new();
    let ghost done: Seq<(Seq<(int, int)>, Seq<(int, int)>)> = seq![];
    let mut idx: usize = 0;
    let mut h: usize = 2;
    let n_lines = ls.len();
    while idx < shapes.len()
        invariant
            n_lines == ls@.len(),
            word@ == layer_word(),
            lsi == lines(s@),
            lsi.len() == ls@.len(),
            forall|m: int| 0 <= m < ls@.len() ==> 0 <= (#[trigger] ls@[m]).0 <= ls@[m].1 <= s@.len(),
            forall|m: int| 0 <= m < ls@.len() ==> (#[trigger] lsi[m]) == (ls@[m].0 as int, ls@[m].1 as int),
            forall|k: int| 0 <= k < shapes@.len() ==> (#[trigger] shapes@[k]).0 * shapes@[k].1 <= usize::MAX,
            idx <= shapes@.len(),
            h == 2 + 3 * idx,
            h <= ls@.len(),
            read_weights(s@, shapes@) == ({
                let rest = layers_from(s@, lsi, shapes@, idx as int);
                WeightsOutcome { layers: done + rest.layers, ..rest }
            }),
            layers@.len() == done.len(),
            forall|k: int|
                0 <= k < layers@.len() ==> spans_match((#[trigger] layers@[k]).weights@, done[k].0)
                    && spans_match(layers@[k].biases@, done[k].1),
        decreases shapes@.len() - idx,
    {
        proof {
            assert(lsi =~= Seq::new(ls@.len(), |m: int| (ls@[m].0 as int, ls@[m].1 as int)));
        }
        let (fault, w, b) = read_layer(s, &ls, &word, h, shapes[idx], idx);
        match fault {
            Some(f) => {
                return WeightsScan { layers, pending_weights: w, pending_biases: b, fault: Some(f) };
            },
            None => {
                proof {
                    let o = layer_outcome(s@, lsi, shapes@[idx as int], idx as int);
                    assert(o is Read);
                    assert(h + 2 < ls@.len());
                    let ws = o->Read_0;
                    let bs = o->Read_1;
                    let before = done;
                    done = done.push((ws, bs));
                    let rest = layers_from(s@, lsi, shapes@, idx + 1);
                    let cur = layers_from(s@, lsi, shapes@, idx as int);
                    assert(cur.layers =~= seq![(ws, bs)] + rest.layers);
                    assert(done + rest.layers =~= before + cur.layers);
                    assert(({
                        WeightsOutcome { layers: done + rest.layers, ..rest }
                    }) =~= ({
                        WeightsOutcome { layers: before + cur.layers, ..cur }
                    }));
                }
                layers.push(LayerSpans { weights: w, biases: b });
                idx = idx + 1;
                h = h + 3;
            },
        }
    }
    WeightsScan { layers, pending_weights: Vec::new(), pending_biases: Vec::new(), fault: None }
}

// ---------------------------------------------------------------------
// Reading back what was written
// ---------------------------------------------------------------------

/// The words of the header line of layer `index`.
pub open spec fn layer_header_words(index: nat, layer: LayerText) -> Seq<Seq<u8>> {
    seq![layer_word(), decimal(index), decimal(layer.input_size as nat), decimal(layer.output_size as nat)]
}

/// The three lines of layer `index`, without their newlines.
pub open spec fn layer_line_contents(index: nat, layer: LayerText) -> Seq<Seq<u8>> {
    seq![
        joined(layer_header_words(index, layer)),
        joined(texts(layer.weights@)),
        joined(texts(layer.biases@)),
    ]
}

/// The lines of the layers before `k`, without their newlines.
pub open spec fn layers_line_contents(layers: Seq<LayerText>, k: int) -> Seq<Seq<u8>>
    decreases k,
{
    if k <= 0 {
        seq![]
    } else {
        layers_line_contents(layers, k - 1) + layer_line_contents((k - 1) as nat, layers[k - 1])
    }
}

/// The lines of the whole file, without their newlines.
pub open spec fn file_line_contents(layers: Seq<LayerText>) -> Seq<Seq<u8>> {
    seq![header_text(), count_prefix() + decimal(layers.len())] + layers_line_contents(
        layers,
        layers.len() as int,
    )
}

proof fn lemma_joined_four(a: Seq<u8>, b: Seq<u8>, c: Seq<u8>, d: Seq<u8>)
    ensures
        joined(seq![a, b, c, d]) == a + seq![0x20u8] + b + seq![0x20u8] + c + seq![0x20u8] + d,
{
    let s4 = seq![a, b, c, d];
    let s3 = seq![a, b, c];
    let s2 = seq![a, b];
    let s1 = seq![a];
    assert(s4.drop_last() =~= s3);
    assert(s3.drop_last() =~= s2);
    assert(s2.drop_last() =~= s1);
    assert(joined(s1) == a);
    assert(joined(s2) == joined(s1) + seq![0x20u8] + b);
    assert(joined(s3) == joined(s2) + seq![0x20u8] + c);
    assert(joined(s4) == joined(s3) + seq![0x20u8] + d);
    assert(joined(s4) =~= a + seq![0x20u8] + b + seq![0x20u8] + c + seq![0x20u8] + d);
}

proof fn lemma_block_three(a: Seq<u8>, b: Seq<u8>, c: Seq<u8>)
    ensures
        line_block(seq![a, b, c]) == a + seq![0x0au8] + b + seq![0x0au8] + c + seq![0x0au8],
{
    let s3 = seq![a, b, c];
    let s2 = seq![b, c];
    let s1 = seq![c];
    let s0 = Seq::<Seq<u8>>::empty();
    assert(s3.drop_first() =~= s2);
    assert(s2.drop_first() =~= s1);
    assert(s1.drop_first() =~= s0);
    assert(line_block(s0) == Seq::<u8>::empty());
    assert(line_block(s1) == c + seq![0x0au8] + line_block(s0));
    assert(line_block(s2) == b + seq![0x0au8] + line_block(s1));
    assert(line_block(s3) == a + seq![0x0au8] + line_block(s2));
    assert(line_block(s3) =~= a + seq![0x0au8] + b + seq![0x0au8] + c + seq![0x0au8]);
}

proof fn lemma_block_two(a: Seq<u8>, b: Seq<u8>)
    ensures
        line_block(seq![a, b]) == a + seq![0x0au8] + b + seq![0x0au8],
{
    let s2 = seq![a, b];
    let s1 = seq![b];
    let s0 = Seq::<Seq<u8>>::empty();
    assert(s2.drop_first() =~= s1);
    assert(s1.drop_first() =~= s0);
    assert(line_block(s0) == Seq::<u8>::empty());
    assert(line_block(s1) == b + seq![0x0au8] + line_block(s0));
    assert(line_block(s2) == a + seq![0x0au8] + line_block(s1));
    assert(line_block(s2) =~= a + seq![0x0au8] + b + seq![0x0au8]);
}

proof fn lemma_layers_text_is_block(layers: Seq<LayerText>, k: int)
    requires
        0 <= k <= layers.len(),
    ensures
        layers_text(layers, k) == line_block(layers_line_contents(layers, k)),
        layers_line_contents(layers, k).len() == 3 * k,
    decreases k,
{
    if k > 0 {
        lemma_layers_text_is_block(layers, k - 1);
        let three = layer_line_contents((k - 1) as nat, layers[k - 1]);
        lemma_line_block_concat(layers_line_contents(layers, k - 1), three);
        let l = layers[k - 1];
        lemma_joined_four(layer_word(), decimal((k - 1) as nat), decimal(l.input_size as nat), decimal(l.output_size as nat));
        lemma_block_three(three[0], three[1], three[2]);
        assert(three =~= seq![three[0], three[1], three[2]]);
        assert(line_block(three) =~= layer_lines((k - 1) as nat, l));
    }
}

proof fn lemma_layers_line_contents_index(layers: Seq<LayerText>, k: int, idx: int)
    requires
        0 <= idx < k <= layers.len(),
    ensures
        layers_line_contents(layers, k).len() == 3 * k,
        layers_line_contents(layers, k)[3 * idx] == joined(layer_header_words(idx as nat, layers[idx])),
        layers_line_contents(layers, k)[3 * idx + 1] == joined(texts(layers[idx].weights@)),
        layers_line_contents(layers, k)[3 * idx + 2] == joined(texts(layers[idx].biases@)),
    decreases k,
{
    lemma_layers_text_is_block(layers, k);
    lemma_layers_text_is_block(layers, k - 1);
    if idx < k - 1 {
        lemma_layers_line_contents_index(layers, k - 1, idx);
    }
}

proof fn lemma_joined_plain(ts: Seq<Seq<u8>>)
    requires
        forall|i: int| 0 <= i < ts.len() ==> plain_word(#[trigger] ts[i]),
    ensures
        forall|i: int| 0 <= i < joined(ts).len() ==> #[trigger] joined(ts)[i] == 0x20 || plain_byte(joined(ts)[i]),
        joined(ts).len() > 0 ==> plain_byte(joined(ts).last()),
    decreases ts.len(),
{
    if ts.len() >= 2 {
        lemma_joined_plain(ts.drop_last());
        let a = joined(ts.drop_last());
        let w = ts.last();
        assert(plain_word(w));
        assert(joined(ts) == a + seq![0x20u8] + w);
        assert forall|i: int| 0 <= i < joined(ts).len() implies #[trigger] joined(ts)[i] == 0x20 || plain_byte(
            joined(ts)[i],
        ) by {
            if i < a.len() {
                assert(joined(ts)[i] == a[i]);
            } else if i > a.len() {
                assert(joined(ts)[i] == w[i - a.len() - 1]);
            }
        }
    } else if ts.len() == 1 {
        assert(plain_word(ts[0]));
    }
}

proof fn lemma_joined_clean(ts: Seq<Seq<u8>>)
    requires
        forall|i: int| 0 <= i < ts.len() ==> plain_word(#[trigger] ts[i]),
    ensures
        clean_line(joined(ts)),
{
    lemma_joined_plain(ts);
    let j = joined(ts);
    assert forall|i: int| 0 <= i < j.len() implies #[trigger] j[i] != 0x0a by {
        assert(j[i] == 0x20 || plain_byte(j[i]));
    }
}

/// Every value of every layer is a plain word (as the text of a
/// number is).
pub open spec fn plain_values(layers: Seq<LayerText>) -> bool {
    forall|k: int| 0 <= k < layers.len() ==> {
        &&& forall|i: int| 0 <= i < (#[trigger] layers[k]).weights@.len() ==> plain_word(#[trigger] layers[k].weights@[i]@)
        &&& forall|i: int| 0 <= i < layers[k].biases@.len() ==> plain_word(#[trigger] layers[k].biases@[i]@)
    }
}

/// Each layer has as many values as its own shape asks for.
pub open spec fn values_fit(layers: Seq<LayerText>) -> bool {
    forall|k: int| 0 <= k < layers.len() ==> {
        &&& (#[trigger] layers[k]).weights@.len() == layers[k].input_size * layers[k].output_size
        &&& layers[k].biases@.len() == layers[k].output_size
    }
}

/// The (input, output) shape of a layer.
pub open spec fn shape_of(layer: LayerText) -> (usize, usize) {
    (layer.input_size, layer.output_size)
}

/// Each layer has as many values as its shape asks for, and `shapes`
/// lists the layers' shapes.
pub open spec fn layers_fit(layers: Seq<LayerText>, shapes: Seq<(usize, usize)>) -> bool {
    &&& values_fit(layers)
    &&& shapes.len() == layers.len()
    &&& forall|k: int| 0 <= k < layers.len() ==> #[trigger] shapes[k] == shape_of(layers[k])
}

proof fn lemma_texts_plain(values: Seq<Vec<u8>>)
    requires
        forall|i: int| 0 <= i < values.len() ==> plain_word(#[trigger] values[i]@),
    ensures
        forall|i: int| 0 <= i < texts(values).len() ==> plain_word(#[trigger] texts(values)[i]),
{
    assert forall|i: int| 0 <= i < texts(values).len() implies plain_word(#[trigger] texts(values)[i]) by {
        assert(texts(values)[i] == values[i]@);
    }
}

/// The header line of layer `k` is a plain word list.
proof fn lemma_header_words_plain(index: nat, layer: LayerText)
    ensures
        forall|k: int| 0 <= k < 4 ==> plain_word(#[trigger] layer_header_words(index, layer)[k]),
{
    lemma_decimal_plain(index);
    lemma_decimal_plain(layer.input_size as nat);
    lemma_decimal_plain(layer.output_size as nat);
    assert(plain_word(layer_word())) by {
        assert forall|i: int| 0 <= i < layer_word().len() implies plain_byte(#[trigger] layer_word()[i]) by {}
    }
}

/// The values of layer `k` are plain words.
proof fn lemma_layer_values_plain(layers: Seq<LayerText>, k: int)
    requires
        0 <= k < layers.len(),
        plain_values(layers),
    ensures
        forall|i: int| 0 <= i < texts(layers[k].weights@).len() ==> plain_word(#[trigger] texts(layers[k].weights@)[i]),
        forall|i: int| 0 <= i < texts(layers[k].biases@).len() ==> plain_word(#[trigger] texts(layers[k].biases@)[i]),
{
    lemma_texts_plain(layers[k].weights@);
    lemma_texts_plain(layers[k].biases@);
}

/// The file is the block of its lines.
proof fn lemma_file_is_block(layers: Seq<LayerText>)
    ensures
        weights_text(layers) == line_block(file_line_contents(layers)),
        file_line_contents(layers).len() == 2 + 3 * layers.len(),
{
    let n = layers.len() as int;
    let count_line = count_prefix() + decimal(layers.len());
    lemma_layers_text_is_block(layers, n);
    lemma_line_block_concat(seq![header_text(), count_line], layers_line_contents(layers, n));
    lemma_block_two(header_text(), count_line);
    assert(weights_text(layers) =~= line_block(file_line_contents(layers)));
}

/// Every line of the file is clean.
proof fn lemma_file_lines_clean(layers: Seq<LayerText>)
    requires
        plain_values(layers),
    ensures
        forall|i: int|
            0 <= i < file_line_contents(layers).len() ==> clean_line(#[trigger] file_line_contents(layers)[i]),
{
    let n = layers.len() as int;
    let cs = file_line_contents(layers);
    let count_line = count_prefix() + decimal(layers.len());
    lemma_file_is_block(layers);
    assert forall|i: int| 0 <= i < cs.len() implies clean_line(#[trigger] cs[i]) by {
        if i == 0 {
            assert forall|k: int| 0 <= k < header_text().len() implies #[trigger] header_text()[k] != 0x0a by {}
        } else if i == 1 {
            lemma_decimal_plain(layers.len());
            assert forall|k: int| 0 <= k < count_line.len() implies #[trigger] count_line[k] != 0x0a by {
                if k >= 7 {
                    assert(count_line[k] == decimal(layers.len())[k - 7]);
                    assert(plain_byte(decimal(layers.len())[k - 7]));
                }
            }
            assert(count_line.last() == decimal(layers.len()).last());
        } else {
            let j = i - 2;
            let idx = j / 3;
            lemma_layers_line_contents_index(layers, n, idx);
            let l = layers[idx];
            assert(cs[i] == layers_line_contents(layers, n)[j]);
            lemma_header_words_plain(idx as nat, l);
            lemma_joined_clean(layer_header_words(idx as nat, l));
            lemma_layer_values_plain(layers, idx);
            lemma_joined_clean(texts(l.weights@));
            lemma_joined_clean(texts(l.biases@));
        }
    }
}

/// The lines of a written file: spans whose text is each line.
pub open spec fn lines_are(s: Seq<u8>, ls: Seq<(int, int)>, cs: Seq<Seq<u8>>) -> bool {
    &&& ls.len() == cs.len()
    &&& forall|i: int|
        0 <= i < ls.len() ==> 0 <= (#[trigger] ls[i]).0 <= ls[i].1 <= s.len() && s.subrange(ls[i].0, ls[i].1)
            == cs[i]
}

/// Reading layer `idx` of a written file, expecting the shape the
/// layer was written with, gives its values back.
proof fn lemma_layer_reads_back(s: Seq<u8>, ls: Seq<(int, int)>, layers: Seq<LayerText>, shape: (usize, usize), idx: int)
    requires
        0 <= idx < layers.len(),
        values_fit(layers),
        plain_values(layers),
        lines_are(s, ls, file_line_contents(layers)),
    ensures
        shape == shape_of(layers[idx]) ==> layer_outcome(s, ls, shape, idx) == LayerOutcome::Read(
            tokens(s, ls[2 + 3 * idx + 1].0, ls[2 + 3 * idx + 1].1),
            tokens(s, ls[2 + 3 * idx + 2].0, ls[2 + 3 * idx + 2].1),
        ),
        shape != shape_of(layers[idx]) ==> layer_outcome(s, ls, shape, idx) == LayerOutcome::Fault(
            seq![],
            seq![],
            shape_fault(layers[idx], shape, idx),
        ),
        tokens(s, ls[2 + 3 * idx + 1].0, ls[2 + 3 * idx + 1].1).len() == layers[idx].weights@.len(),
        tokens(s, ls[2 + 3 * idx + 2].0, ls[2 + 3 * idx + 2].1).len() == layers[idx].biases@.len(),
        forall|i: int|
            0 <= i < layers[idx].weights@.len() ==> text_of(
                s,
                #[trigger] tokens(s, ls[2 + 3 * idx + 1].0, ls[2 + 3 * idx + 1].1)[i],
            ) == layers[idx].weights@[i]@,
        forall|i: int|
            0 <= i < layers[idx].biases@.len() ==> text_of(
                s,
                #[trigger] tokens(s, ls[2 + 3 * idx + 2].0, ls[2 + 3 * idx + 2].1)[i],
            ) == layers[idx].biases@[i]@,
{
    let n = layers.len() as int;
    let l = layers[idx];
    let cs = file_line_contents(layers);
    lemma_layers_line_contents_index(layers, n, idx);
    let h = 2 + 3 * idx;
    assert(cs[h] == joined(layer_header_words(idx as nat, l)));
    assert(cs[h + 1] == joined(texts(l.weights@)));
    assert(cs[h + 2] == joined(texts(l.biases@)));
    let hw = layer_header_words(idx as nat, l);
    lemma_header_words_plain(idx as nat, l);
    lemma_tokens_of_words(s, ls[h].0, ls[h].1, hw);
    let parts = tokens(s, ls[h].0, ls[h].1);
    assert(text_of(s, parts[0]) == layer_word());
    lemma_decimal_reads_back(s, parts[2].0, parts[2].1, l.input_size);
    lemma_decimal_reads_back(s, parts[3].0, parts[3].1, l.output_size);
    lemma_layer_values_plain(layers, idx);
    lemma_tokens_of_words(s, ls[h + 1].0, ls[h + 1].1, texts(l.weights@));
    lemma_tokens_of_words(s, ls[h + 2].0, ls[h + 2].1, texts(l.biases@));
    let w = tokens(s, ls[h + 1].0, ls[h + 1].1);
    let b = tokens(s, ls[h + 2].0, ls[h + 2].1);
    assert(l.weights@.len() == l.input_size * l.output_size);
    assert forall|i: int| 0 <= i < l.weights@.len() implies text_of(s, #[trigger] w[i]) == l.weights@[i]@ by {
        assert(texts(l.weights@)[i] == l.weights@[i]@);
    }
    assert forall|i: int| 0 <= i < l.biases@.len() implies text_of(s, #[trigger] b[i]) == l.biases@[i]@ by {
        assert(texts(l.biases@)[i] == l.biases@[i]@);
    }
}

/// Layer `k` of an outcome holds the values of `layer` as text.
pub open spec fn reads_as(s: Seq<u8>, got: (Seq<(int, int)>, Seq<(int, int)>), layer: LayerText) -> bool {
    &&& got.0.len() == layer.weights@.len()
    &&& got.1.len() == layer.biases@.len()
    &&& forall|i: int| 0 <= i < got.0.len() ==> text_of(s, #[trigger] got.0[i]) == layer.weights@[i]@
    &&& forall|i: int| 0 <= i < got.1.len() ==> text_of(s, #[trigger] got.1[i]) == layer.biases@[i]@
}

/// Reading the layers of a written file from `idx` on gives their
/// values back.
proof fn lemma_layers_read_back(s: Seq<u8>, ls: Seq<(int, int)>, layers: Seq<LayerText>, shapes: Seq<(usize, usize)>, idx: int)
    requires
        0 <= idx <= layers.len(),
        layers_fit(layers, shapes),
        plain_values(layers),
        lines_are(s, ls, file_line_contents(layers)),
    ensures
        layers_from(s, ls, shapes, idx).fault is None,
        layers_from(s, ls, shapes, idx).layers.len() == layers.len() - idx,
        forall|k: int|
            0 <= k < layers.len() - idx ==> reads_as(s, #[trigger] layers_from(s, ls, shapes, idx).layers[k], layers[idx + k]),
    decreases layers.len() - idx,
{
    if idx < layers.len() {
        lemma_layer_reads_back(s, ls, layers, shapes[idx], idx);
        lemma_layers_read_back(s, ls, layers, shapes, idx + 1);
        let h = 2 + 3 * idx;
        let w = tokens(s, ls[h + 1].0, ls[h + 1].1);
        let b = tokens(s, ls[h + 2].0, ls[h + 2].1);
        let rest = layers_from(s, ls, shapes, idx + 1);
        let cur = layers_from(s, ls, shapes, idx);
        assert(cur.layers == seq![(w, b)] + rest.layers);
        assert(reads_as(s, (w, b), layers[idx]));
        assert forall|k: int| 0 <= k < layers.len() - idx implies reads_as(s, #[trigger] cur.layers[k], layers[idx + k]) by {
            if k == 0 {
                assert(cur.layers[0] == (w, b));
            } else {
                assert(cur.layers[k] == rest.layers[k - 1]);
                assert(idx + 1 + (k - 1) == idx + k);
            }
        }
    }
}

proof fn lemma_file_lines(layers: Seq<LayerText>)
    requires
        plain_values(layers),
    ensures
        lines_are(weights_text(layers), lines(weights_text(layers)), file_line_contents(layers)),
        file_line_contents(layers).len() == 2 + 3 * layers.len(),
{
    let s = weights_text(layers);
    let cs = file_line_contents(layers);
    lemma_file_is_block(layers);
    lemma_file_lines_clean(layers);
    assert(s.subrange(0, s.len() as int) =~= s);
    lemma_lines_of_block(s, 0, cs);
}

proof fn lemma_count_line_reads_back(s: Seq<u8>, ls: Seq<(int, int)>, layers: Seq<LayerText>)
    requires
        layers.len() <= usize::MAX,
        lines_are(s, ls, file_line_contents(layers)),
    ensures
        text_of(s, ls[0]) == header_text(),
        ls[1].1 - ls[1].0 >= 7,
        s.subrange(ls[1].0, ls[1].0 + 7) == count_prefix(),
        is_usize_text(s, ls[1].0 + 7, ls[1].1),
        usize_text_value(s, ls[1].0 + 7, ls[1].1) == layers.len(),
{
    let count_line = count_prefix() + decimal(layers.len());
    let cs = file_line_contents(layers);
    assert(cs[0] == header_text());
    assert(cs[1] == count_line);
    let l1 = ls[1];
    assert(s.subrange(l1.0, l1.1) == count_line);
    assert(s.subrange(l1.0, l1.0 + 7) =~= count_prefix()) by {
        assert forall|k: int| 0 <= k < 7 implies s.subrange(l1.0, l1.0 + 7)[k] == count_prefix()[k] by {
            assert(s.subrange(l1.0, l1.1)[k] == count_line[k]);
        }
    }
    assert(s.subrange(l1.0 + 7, l1.1) =~= decimal(layers.len())) by {
        assert forall|k: int| 0 <= k < decimal(layers.len()).len() implies s.subrange(l1.0 + 7, l1.1)[k]
            == decimal(layers.len())[k] by {
            assert(s.subrange(l1.0, l1.1)[k + 7] == count_line[k + 7]);
        }
    }
    lemma_decimal_reads_back(s, l1.0 + 7, l1.1, layers.len() as usize);
}

/// Reading back a file written from some layers, into a network with
/// those layers' shapes, succeeds and gives every value back as the
/// text it was written as.
pub proof fn lemma_written_weights_read_back(layers: Seq<LayerText>, shapes: Seq<(usize, usize)>)
    requires
        layers.len() <= usize::MAX,
        layers_fit(layers, shapes),
        plain_values(layers),
    ensures
        read_weights(weights_text(layers), shapes).fault is None,
        read_weights(weights_text(layers), shapes).layers.len() == layers.len(),
        forall|k: int|
            0 <= k < layers.len() ==> reads_as(
                weights_text(layers),
                #[trigger] read_weights(weights_text(layers), shapes).layers[k],
                layers[k],
            ),
{
    let s = weights_text(layers);
    let ls = lines(s);
    lemma_file_lines(layers);
    lemma_count_line_reads_back(s, ls, layers);
    assert(read_weights(s, shapes) == layers_from(s, ls, shapes, 0));
    lemma_layers_read_back(s, ls, layers, shapes, 0);
    assert forall|k: int| 0 <= k < layers.len() implies reads_as(
        s,
        #[trigger] read_weights(s, shapes).layers[k],
        layers[k],
    ) by {
        assert(0 + k == k);
    }
}

/// The fault for layer `k`, written as `layer`, read by a network that
/// expects the shape `shape` there.
pub open spec fn shape_fault(layer: LayerText, shape: (usize, usize), k: int) -> WeightsFault {
    WeightsFault::ShapeMismatch {
        layer: k as usize,
        file_input: layer.input_size,
        file_output: layer.output_size,
        net_input: shape.0,
        net_output: shape.1,
    }
}

proof fn lemma_layers_refused(
    s: Seq<u8>,
    ls: Seq<(int, int)>,
    layers: Seq<LayerText>,
    shapes: Seq<(usize, usize)>,
    idx: int,
    k: int,
)
    requires
        0 <= idx <= k < layers.len(),
        shapes.len() == layers.len(),
        values_fit(layers),
        plain_values(layers),
        lines_are(s, ls, file_line_contents(layers)),
        shapes[k] != shape_of(layers[k]),
        forall|j: int| idx <= j < k ==> shapes[j] == shape_of(layers[j]),
    ensures
        layers_from(s, ls, shapes, idx).fault == Some(shape_fault(layers[k], shapes[k], k)),
        layers_from(s, ls, shapes, idx).layers.len() == k - idx,
    decreases k - idx,
{
    lemma_layer_reads_back(s, ls, layers, shapes[idx], idx);
    if idx < k {
        lemma_layers_refused(s, ls, layers, shapes, idx + 1, k);
    }
}

/// A file written from some layers is refused by a network whose dense
/// layers are not those layers' shapes: with a count mismatch when it
/// has another number of them, and otherwise with a shape mismatch at
/// the first layer of another shape, after the layers before it were
/// read.
pub proof fn lemma_other_shapes_refused(layers: Seq<LayerText>, shapes: Seq<(usize, usize)>)
    requires
        layers.len() <= usize::MAX,
        values_fit(layers),
        plain_values(layers),
    ensures
        shapes.len() != layers.len() ==> read_weights(weights_text(layers), shapes).fault == Some(
            WeightsFault::LayerCountMismatch {
                in_file: layers.len() as usize,
                in_network: shapes.len() as usize,
            },
        ),
        forall|k: int|
            0 <= k < layers.len() && shapes.len() == layers.len() && #[trigger] shapes[k] != shape_of(
                layers[k],
            ) && (forall|j: int| 0 <= j < k ==> shapes[j] == shape_of(layers[j])) ==> read_weights(
                weights_text(layers),
                shapes,
            ).fault == Some(shape_fault(layers[k], shapes[k], k)) && read_weights(
                weights_text(layers),
                shapes,
            ).layers.len() == k,
{
    let s = weights_text(layers);
    let ls = lines(s);
    lemma_file_lines(layers);
    lemma_count_line_reads_back(s, ls, layers);
    if shapes.len() == layers.len() {
        assert(read_weights(s, shapes) == layers_from(s, ls, shapes, 0));
        assert forall|k: int|
            0 <= k < layers.len() && #[trigger] shapes[k] != shape_of(layers[k]) && (forall|j: int|
                0 <= j < k ==> shapes[j] == shape_of(layers[j])) implies read_weights(s, shapes).fault
            == Some(shape_fault(layers[k], shapes[k], k)) && read_weights(s, shapes).layers.len() == k by {
            lemma_layers_refused(s, ls, layers, shapes, 0, k);
        }
    }
}

/// In the written file `s`, layer `k`'s header is line `2 + 3k`, made of
/// the words `LAYER`, `k`, the input size and the output size in this
/// order; its weights and biases are the words of the next two lines,
/// as the value texts in order.
pub open spec fn layer_written_as(s: Seq<u8>, k: int, layer: LayerText) -> bool {
    let ls = lines(s);
    let h = ls[2 + 3 * k];
    let t = tokens(s, h.0, h.1);
    &&& t.len() == 4
    &&& text_of(s, t[0]) == seq![0x4cu8, 0x41, 0x59, 0x45, 0x52]
    &&& is_usize_text(s, t[1].0, t[1].1) && usize_text_value(s, t[1].0, t[1].1) == k
    &&& is_usize_text(s, t[2].0, t[2].1) && usize_text_value(s, t[2].0, t[2].1) == layer.input_size
    &&& is_usize_text(s, t[3].0, t[3].1) && usize_text_value(s, t[3].0, t[3].1) == layer.output_size
    &&& reads_as(
        s,
        (tokens(s, ls[3 + 3 * k].0, ls[3 + 3 * k].1), tokens(s, ls[4 + 3 * k].0, ls[4 + 3 * k].1)),
        layer,
    )
}

/// The layout of a written weights file: the format header, then
/// `LAYERS` and the layer count, then three lines per layer (see
/// `layer_written_as`), in layer order.
pub proof fn lemma_written_file_layout(layers: Seq<LayerText>)
    requires
        layers.len() <= usize::MAX,
        plain_values(layers),
    ensures
        lines(weights_text(layers)).len() == 2 + 3 * layers.len(),
        text_of(weights_text(layers), lines(weights_text(layers))[0]) == header_text(),
        usize_text_value(
            weights_text(layers),
            lines(weights_text(layers))[1].0 + 7,
            lines(weights_text(layers))[1].1,
        ) == layers.len(),
        forall|k: int| 0 <= k < layers.len() ==> #[trigger] layer_written_as(weights_text(layers), k, layers[k]),
{
    let s = weights_text(layers);
    let ls = lines(s);
    lemma_file_lines(layers);
    lemma_count_line_reads_back(s, ls, layers);
    let n = layers.len() as int;
    let cs = file_line_contents(layers);
    assert forall|k: int| 0 <= k < layers.len() implies #[trigger] layer_written_as(s, k, layers[k]) by {
        let l = layers[k];
        lemma_layers_line_contents_index(layers, n, k);
        let h = 2 + 3 * k;
        assert(cs[h] == joined(layer_header_words(k as nat, l)));
        assert(cs[h + 1] == joined(texts(l.weights@)));
        assert(cs[h + 2] == joined(texts(l.biases@)));
        let hw = layer_header_words(k as nat, l);
        lemma_header_words_plain(k as nat, l);
        lemma_tokens_of_words(s, ls[h].0, ls[h].1, hw);
        let parts = tokens(s, ls[h].0, ls[h].1);
        assert(text_of(s, parts[0]) == layer_word());
        assert(layer_word() =~= seq![0x4cu8, 0x41, 0x59, 0x45, 0x52]);
        lemma_decimal_reads_back(s, parts[1].0, parts[1].1, k as usize);
        lemma_decimal_reads_back(s, parts[2].0, parts[2].1, l.input_size);
        lemma_decimal_reads_back(s, parts[3].0, parts[3].1, l.output_size);
        lemma_layer_values_plain(layers, k);
        lemma_tokens_of_words(s, ls[h + 1].0, ls[h + 1].1, texts(l.weights@));
        lemma_tokens_of_words(s, ls[h + 2].0, ls[h + 2].1, texts(l.biases@));
        let w = tokens(s, ls[h + 1].0, ls[h + 1].1);
        let b = tokens(s, ls[h + 2].0, ls[h + 2].1);
        assert forall|i: int| 0 <= i < w.len() implies text_of(s, #[trigger] w[i]) == l.weights@[i]@ by {
            assert(texts(l.weights@)[i] == l.weights@[i]@);
        }
        assert forall|i: int| 0 <= i < b.len() implies text_of(s, #[trigger] b[i]) == l.biases@[i]@ by {
            assert(texts(l.biases@)[i] == l.biases@[i]@);
        }
        assert(3 + 3 * k == h + 1);
        assert(4 + 3 * k == h + 2);
    }
}

} // verus!
