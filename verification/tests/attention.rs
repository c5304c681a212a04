use pocket_core::attention::{attention_mask, attention_step, rotary_indices, unrotated_dims};
use pocket_core::attention::AttentionStep;
use pocket_core::caches::KvCaches;
use pocket_core::layers::kv_source_layer;

#[test]
fn masks_hide_what_is_later() {
    assert_eq!(attention_mask(3, None), vec![1, 0, 0, 1, 1, 0, 1, 1, 1]);
    assert!(attention_mask(0, None).is_empty());
}

#[test]
fn masks_hide_what_is_out_of_the_window() {
    assert_eq!(
        attention_mask(4, Some(1)),
        vec![1, 0, 0, 0, 1, 1, 0, 0, 0, 1, 1, 0, 0, 0, 1, 1]
    );
    assert_eq!(attention_mask(3, Some(0)), vec![1, 0, 0, 0, 1, 0, 0, 0, 1]);
    assert_eq!(attention_mask(3, Some(2)), attention_mask(3, None));
}

#[test]
fn shared_layers_take_from_the_first_ones() {
    let sources: Vec<usize> = (0..6).map(|l| kv_source_layer(l, 6, 2)).collect();
    assert_eq!(sources, vec![0, 1, 2, 3, 0, 1]);
    assert_eq!(kv_source_layer(5, 6, 0), 5);
    assert_eq!(kv_source_layer(0, 6, 6), 0);
}

#[test]
fn steps_of_a_pass() {
    assert_eq!(
        attention_step(4, 6, 2, 7, 0),
        AttentionStep { source: 0, append: false, keep: false, masked: true }
    );
    assert_eq!(
        attention_step(3, 6, 2, 1, 9),
        AttentionStep { source: 3, append: true, keep: true, masked: false }
    );
}

#[test]
fn rotated_dimensions() {
    assert_eq!(rotary_indices(6), vec![0, 2, 4]);
    assert_eq!(rotary_indices(5), vec![0, 2, 4]);
    assert!(rotary_indices(0).is_empty());
    let expected: Vec<usize> = (0..256).step_by(2).collect();
    assert_eq!(rotary_indices(256), expected);
    assert_eq!(unrotated_dims(64, 256), Some(192));
    assert_eq!(unrotated_dims(256, 256), None);
    assert_eq!(unrotated_dims(512, 256), None);
}

/// A pass in which each layer works with what was kept and with a number of its own, and
/// which gives the sum of all of them.
fn pass(caches: &mut KvCaches<Vec<u32>>, number: u32, index_pos: usize) -> u32 {
    let mut sum = 0;
    for layer in 0..6 {
        let mut worked_with = match caches.kept(layer, index_pos) {
            Some(kept) => kept.clone(),
            None => vec![],
        };
        worked_with.push(number + layer as u32);
        sum += worked_with.iter().sum::<u32>();
        caches.keep(layer, worked_with);
    }
    sum
}

#[test]
fn layers_keep_their_own_keys_and_values() {
    let mut caches: KvCaches<&str> = KvCaches::new(3, 1);
    assert_eq!(caches.kept(0, 5), None);
    caches.keep(0, "first");
    caches.keep(2, "shared");
    assert_eq!(caches.kept(0, 5), Some(&"first"));
    assert_eq!(caches.kept(0, 0), None);
    // The last layer takes what the first one kept, and keeps nothing.
    assert_eq!(caches.kept(2, 5), Some(&"first"));
    assert_eq!(caches.kept(1, 5), None);
}

#[test]
fn passes_from_the_start_forget() {
    let mut fresh = KvCaches::new(6, 2);
    let mut used = KvCaches::new(6, 2);
    pass(&mut used, 100, 0);
    pass(&mut used, 7, 1);
    pass(&mut used, 9, 2);
    assert_eq!(pass(&mut fresh, 1, 0), pass(&mut used, 1, 0));
    assert_eq!(pass(&mut fresh, 2, 1), pass(&mut used, 2, 1));
    assert_eq!(pass(&mut fresh, 3, 2), pass(&mut used, 3, 2));
}
