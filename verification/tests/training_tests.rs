use fashion_mnist_rust::rng::Rng;
use fashion_mnist_rust::training::{batch_bounds, pack_columns, progress_bar, shuffle};

#[test]
fn test_build_batch_packs_columns_correctly() {
    let images = vec![vec![1.0, 2.0, 3.0], vec![4.0, 5.0, 6.0]];
    let batch = pack_columns(&images, 0, 2);
    let cols = 2;
    assert_eq!(batch.len(), 3 * cols);
    assert_eq!(batch[0 * cols + 0], 1.0);
    assert_eq!(batch[0 * cols + 1], 4.0);
    assert_eq!(batch[2 * cols + 1], 6.0);
}

#[test]
fn pack_columns_takes_the_given_range() {
    let columns: Vec<Vec<u32>> = (0..5).map(|k| vec![k, 10 + k]).collect();
    assert_eq!(pack_columns(&columns, 1, 4), vec![1, 2, 3, 11, 12, 13]);
}

#[test]
fn batches_cover_every_sample_once() {
    assert_eq!(batch_bounds(10, 4), vec![(0, 4), (4, 8), (8, 10)]);
    assert_eq!(batch_bounds(8, 4), vec![(0, 4), (4, 8)]);
    assert_eq!(batch_bounds(0, 4), vec![]);
    assert_eq!(batch_bounds(3, 128), vec![(0, 3)]);
}

fn reference_shuffle(v: &mut Vec<u32>, rng: &mut Rng) {
    let n = v.len();
    for i in (1..n).rev() {
        let j = (rng.next_u64() as usize) % (i + 1);
        v.swap(i, j);
    }
}

#[test]
fn shuffle_keeps_every_image_with_its_label() {
    let mut images: Vec<u32> = (0..100).collect();
    let mut labels: Vec<u32> = (0..100).map(|k| k * 3).collect();
    let mut rng = Rng::new(43);
    shuffle(&mut images, &mut labels, &mut rng);
    for (img, lab) in images.iter().zip(labels.iter()) {
        assert_eq!(*lab, img * 3);
    }
    let mut sorted = images.clone();
    sorted.sort();
    assert_eq!(sorted, (0..100).collect::<Vec<u32>>());
    assert_ne!(images, (0..100).collect::<Vec<u32>>());
}

#[test]
fn shuffle_matches_fisher_yates_and_advances_the_generator() {
    let mut images: Vec<u32> = (0..20).collect();
    let mut labels: Vec<u32> = (0..20).collect();
    let mut rng = Rng::new(7);
    shuffle(&mut images, &mut labels, &mut rng);

    let mut expected: Vec<u32> = (0..20).collect();
    let mut reference = Rng::new(7);
    reference_shuffle(&mut expected, &mut reference);
    assert_eq!(images, expected);
    assert_eq!(rng.next_u64(), reference.next_u64());
}

#[test]
fn same_seed_gives_same_permutation() {
    let mut a: Vec<u32> = (0..30).collect();
    let mut b: Vec<char> = (0..30u8).map(|k| (b'a' + k % 26) as char).collect();
    let mut a_labels = a.clone();
    let mut b_labels = a.clone();
    shuffle(&mut a, &mut a_labels, &mut Rng::new(5));
    shuffle(&mut b, &mut b_labels, &mut Rng::new(5));
    assert_eq!(a_labels, b_labels);
}

#[test]
fn short_inputs_are_left_alone() {
    let mut images = vec![9u8];
    let mut labels: Vec<u8> = vec![];
    let mut rng = Rng::new(3);
    shuffle(&mut images, &mut labels, &mut rng);
    assert_eq!(images, vec![9]);
    let mut fresh = Rng::new(3);
    let mut again = Rng::new(3);
    let mut none: Vec<u8> = vec![];
    shuffle(&mut none, &mut vec![0u8], &mut fresh);
    assert_eq!(fresh.next_u64(), again.next_u64());
}

fn expected_bar(epoch: usize, total: usize) -> String {
    let bar_width = 20;
    let filled = (epoch * bar_width) / total;
    (0..bar_width).map(|i| if i < filled { '█' } else { '░' }).collect()
}

#[test]
fn progress_bar_fills_in_proportion() {
    for (epoch, total) in [(1, 30), (10, 30), (29, 30), (30, 30), (0, 5), (3, 7), (7, 3)] {
        let bar = String::from_utf8(progress_bar(epoch, total)).unwrap();
        assert_eq!(bar, expected_bar(epoch, total), "{}/{}", epoch, total);
    }
    assert_eq!(String::from_utf8(progress_bar(15, 30)).unwrap(), "██████████░░░░░░░░░░");
}
