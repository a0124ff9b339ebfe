use coco_border_stats::aggregate::dataset_mean;
use coco_border_stats::color::{channel_sums, Rgb};

fn rgb(r: u8, g: u8, b: u8) -> Rgb {
    Rgb { r, g, b }
}

#[test]
fn two_means_average_exactly() {
    let means = vec![rgb(100, 0, 0), rgb(200, 0, 0)];
    assert_eq!(dataset_mean(&means), rgb(150, 0, 0));
}

#[test]
fn aggregation_truncates() {
    // 100 + 201 = 301, and 301 / 2 truncates to 150.
    let means = vec![rgb(100, 0, 0), rgb(201, 0, 0)];
    assert_eq!(dataset_mean(&means), rgb(150, 0, 0));
}

#[test]
fn single_mean_is_identity() {
    let means = vec![rgb(3, 200, 255)];
    assert_eq!(dataset_mean(&means), rgb(3, 200, 255));
}

#[test]
fn all_channels_averaged_independently() {
    let means = vec![rgb(1, 2, 3), rgb(3, 4, 5), rgb(5, 6, 8)];
    assert_eq!(dataset_mean(&means), rgb(3, 4, 5));
}

#[test]
fn group_sums_match_direct_sums() {
    // Summing two groups separately and adding the group sums equals one
    // direct pass over the concatenation, channel by channel.
    let g1 = vec![rgb(10, 20, 30), rgb(40, 50, 60)];
    let g2 = vec![rgb(200, 100, 5)];
    let mut all = g1.clone();
    all.extend(g2.clone());
    let s1 = channel_sums(&g1);
    let s2 = channel_sums(&g2);
    let total = channel_sums(&all);
    assert_eq!((s1.0 + s2.0, s1.1 + s2.1, s1.2 + s2.2), total);
    assert_eq!(total, (250, 170, 95));
}

#[test]
fn group_sums_order_independent() {
    let g1 = vec![rgb(10, 20, 30), rgb(40, 50, 60)];
    let g2 = vec![rgb(200, 100, 5)];
    let mut forward = g1.clone();
    forward.extend(g2.clone());
    let mut backward = g2.clone();
    backward.extend(g1.clone());
    assert_eq!(channel_sums(&forward), channel_sums(&backward));
}
