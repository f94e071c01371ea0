use deep_poker::game::action::{ActionConfig, Ratio};
use deep_poker::model::layer_sizes::{
    calc_cnn_size_wh, calc_conv_features, calc_twin_features, conv_features_can_be_sized,
    twin_features_can_be_sized,
};

#[test]
fn convolution_with_padding_keeps_the_extent() {
    assert_eq!(calc_cnn_size_wh((13, 4), 3, 1, 1), (13, 4));
    assert_eq!(calc_cnn_size_wh((7, 5), 3, 1, 1), (7, 5));
    assert_eq!(calc_cnn_size_wh((13, 4), 1, 0, 1), (13, 4));
}

#[test]
fn pooling_halves_the_extent() {
    assert_eq!(calc_cnn_size_wh((13, 4), 2, 0, 2), (6, 2));
    assert_eq!(calc_cnn_size_wh((7, 5), 2, 0, 2), (3, 2));
    assert_eq!(calc_cnn_size_wh((1, 2), 2, 0, 2), (1, 1));
}

#[test]
fn quotient_is_rounded_towards_zero() {
    // a kernel larger than the input: (1 - 4) / 2 is -1, not -2
    assert_eq!(calc_cnn_size_wh((1, 0), 4, 0, 2), (0, -1));
    assert_eq!(calc_cnn_size_wh((10, 10), 3, 0, 4), (2, 2));
}

#[test]
fn conv_network_feature_counts() {
    // three seats, seven slots, nine actions per street
    assert_eq!(calc_conv_features(3, 7, 9), (288, 3 * 2 * 9 * 16));
    assert_eq!(calc_conv_features(6, 7, 18), (288, 3 * 4 * 18 * 16));
    // one slot only: the pooling of an extent of 1 still leaves 1
    assert_eq!(calc_conv_features(3, 1, 9), (288, 1 * 2 * 9 * 16));
    assert_eq!(calc_conv_features(3, 0, 9), (288, 0));
    assert_eq!(calc_conv_features(250, 250, 1000), (288, 125 * 126 * 16000));
}

#[test]
fn sizes_are_refused_only_where_they_do_not_fit() {
    assert!(conv_features_can_be_sized(3, 7, 9));
    assert!(conv_features_can_be_sized(250, 250, 1000));
    assert!(conv_features_can_be_sized(1000, 1000, 500));
    assert_eq!(calc_conv_features(1000, 1000, 500), (288, 500 * 501 * 500 * 16));
    // 500 * 501 * 536 * 16 is just below two to the 31, one more action is above
    assert!(conv_features_can_be_sized(1000, 1000, 535));
    assert!(!conv_features_can_be_sized(1000, 1000, 536));
    assert!(conv_features_can_be_sized(0x7fff_fffd, 0, 0));
    assert!(!conv_features_can_be_sized(0x7fff_fffe, 0, 0));
    assert!(!conv_features_can_be_sized(100_000, 100_000, 0));
    assert!(twin_features_can_be_sized(3, 7));
    assert!(twin_features_can_be_sized(100_000, 100_000));
    assert_eq!(calc_twin_features(100_000, 100_000), (4992, 100_000 * 100_002 * 96));
}

#[test]
fn twin_network_feature_counts() {
    assert_eq!(calc_twin_features(3, 7), (4992, 7 * 5 * 96));
    assert_eq!(calc_twin_features(6, 7), (4992, 7 * 8 * 96));
    assert_eq!(calc_twin_features(1000, 1000), (4992, 1000 * 1002 * 96));
}

#[test]
fn action_count_is_three_more_than_the_ladder() {
    let mut config = ActionConfig::new(3, 300, 20, 9);
    assert_eq!(config.action_count(), 3);
    config.preflop_raise_sizes = vec![Ratio::new(2, 1); 4];
    config.postflop_raise_sizes = vec![Ratio::new(1, 2); 4];
    assert_eq!(config.action_count(), 7);
    // ladders of different length: the slots follow the postflop ladder
    config.preflop_raise_sizes.pop();
    assert_eq!(config.action_count(), 7);
    config.postflop_raise_sizes.clear();
    assert_eq!(config.action_count(), 3);
    config.postflop_raise_sizes = vec![Ratio::new(1, 2); 4];
    let copy = config.clone();
    assert_eq!(copy.postflop_raise_sizes, config.postflop_raise_sizes);
    assert_eq!(copy.buy_in, 300);
    assert_eq!(copy.player_count, 3);
}
