//! Layer sizes of the networks that read the cards and the betting.

use vstd::prelude::*;

verus! {

/// The quotient rounded towards zero.
pub open spec fn div_to_zero(a: int, b: int) -> int {
    if a >= 0 {
        a / b
    } else {
        -((-a) / b)
    }
}

/// The extent of the output of a convolution or a pooling along one axis.
pub open spec fn cnn_size(input: int, kernel_size: int, padding: int, stride: int) -> int {
    div_to_zero(input - kernel_size + 2 * padding, stride) + 1
}

/// The extent along one axis behind the three stages that both branches of
/// the convolutional network have: a convolution that keeps the extent, a
/// pooling that halves it, and a second convolution that keeps it.
pub open spec fn conv_chain(input: int) -> int {
    cnn_size(cnn_size(cnn_size(input, 3, 1, 1), 2, 0, 2), 3, 1, 1)
}

/// The numbers of features that the card branch and the action branch of
/// the convolutional network hand to the layer that merges them.
pub open spec fn conv_features(
    player_count: int,
    action_abstraction_count: int,
    max_action_per_street_cnt: int,
) -> (int, int) {
    (
        conv_chain(13) * conv_chain(4) * 6 * 2 * 2,
        conv_chain(action_abstraction_count) * conv_chain(player_count + 2)
            * max_action_per_street_cnt * 4 * 2 * 2,
    )
}

/// The numbers of features that the card twin and the action twin of the
/// residual network hand to the layer that merges them: the twins keep
/// the extent of their input and end in 96 channels.
pub open spec fn twin_features(player_count: int, action_abstraction_count: int) -> (int, int) {
    (4992int, action_abstraction_count * (player_count + 2) * 96)
}

/// Whether the extent of an output can be computed in 32 bits: neither
/// the difference of input and kernel, nor twice the padding, nor their
/// sum, nor the extent itself leaves the range.
pub open spec fn cnn_size_fits(input: int, kernel_size: int, padding: int, stride: int) -> bool {
    &&& stride > 0
    &&& i32::MIN <= input - kernel_size <= i32::MAX
    &&& i32::MIN <= 2 * padding <= i32::MAX
    &&& i32::MIN <= input - kernel_size + 2 * padding <= i32::MAX
    &&& cnn_size(input, kernel_size, padding, stride) <= i32::MAX
}

/// Whether the feature counts of the convolutional network can be computed
/// in 32 bits.
pub open spec fn conv_features_fit(
    player_count: int,
    action_abstraction_count: int,
    max_action_per_street_cnt: int,
) -> bool {
    let cells = conv_chain(action_abstraction_count) * conv_chain(player_count + 2);
    &&& action_abstraction_count <= i32::MAX
    &&& player_count + 2 <= i32::MAX
    &&& max_action_per_street_cnt <= i32::MAX
    &&& cells <= i32::MAX
    &&& cells * max_action_per_street_cnt * 16 <= i32::MAX
}

/// The extents that the stages of the convolutional network leave of an
/// extent that is not negative fit 32 bits, and are not negative.
pub proof fn lemma_conv_chain(input: int)
    requires
        0 <= input <= i32::MAX,
    ensures
        cnn_size_fits(input, 3, 1, 1),
        cnn_size(input, 3, 1, 1) == input,
        cnn_size_fits(input, 2, 0, 2),
        0 <= cnn_size(input, 2, 0, 2) <= input,
        0 <= conv_chain(input) <= input,
{
}

/// Tests `conv_features_fit`, for callers that size a network.
pub fn conv_features_can_be_sized(
    player_count: u32,
    action_abstraction_count: u32,
    max_action_per_street_cnt: usize,
) -> (ok: bool)
    ensures
        ok == conv_features_fit(
            player_count as int,
            action_abstraction_count as int,
            max_action_per_street_cnt as int,
        ),
{
    if action_abstraction_count > 0x7fff_ffff || player_count > 0x7fff_fffd
        || max_action_per_street_cnt > 0x7fff_ffff {
        return false;
    }
    proof {
        lemma_conv_chain(action_abstraction_count as int);
        lemma_conv_chain(player_count + 2);
    }
    let width: u64 = ((action_abstraction_count as i64 - 2) / 2 + 1) as u64;
    let height: u64 = ((player_count as i64 + 2 - 2) / 2 + 1) as u64;
    assert(width * height <= 0x7fff_ffff * 0x7fff_ffff) by (nonlinear_arith)
        requires
            width <= 0x7fff_ffff,
            height <= 0x7fff_ffff,
    ;
    let cells: u64 = width * height;
    if cells > 0x7fff_ffff {
        return false;
    }
    let history: u64 = max_action_per_street_cnt as u64;
    assert(cells * history <= 0x7fff_ffff * 0x7fff_ffff) by (nonlinear_arith)
        requires
            cells <= 0x7fff_ffff,
            history <= 0x7fff_ffff,
    ;
    cells * history <= 0x7fff_ffff / 16
}

/// Tests the bounds under which the feature counts of the residual network
/// can be computed.
pub fn twin_features_can_be_sized(player_count: u32, action_abstraction_count: u32) -> (ok: bool)
    ensures
        ok == (player_count + 2 <= usize::MAX && action_abstraction_count * (player_count + 2) * 96
            <= usize::MAX),
{
    let columns: u128 = player_count as u128 + 2;
    let rows: u128 = action_abstraction_count as u128;
    assert(rows * columns <= 0xffff_ffff * 0x1_0000_0001) by (nonlinear_arith)
        requires
            rows <= 0xffff_ffff,
            columns <= 0x1_0000_0001,
    ;
    columns <= usize::MAX as u128 && rows * columns * 96 <= usize::MAX as u128
}

/// The width and height of the output of a convolution or a pooling.
pub fn calc_cnn_size_wh(input_size: (i32, i32), kernel_size: i32, padding: i32, stride: i32) -> (r:
    (i32, i32))
    requires
        cnn_size_fits(input_size.0 as int, kernel_size as int, padding as int, stride as int),
        cnn_size_fits(input_size.1 as int, kernel_size as int, padding as int, stride as int),
    ensures
        r.0 == cnn_size(input_size.0 as int, kernel_size as int, padding as int, stride as int),
        r.1 == cnn_size(input_size.1 as int, kernel_size as int, padding as int, stride as int),
{
    (
        (input_size.0 - kernel_size + 2 * padding) / stride + 1,
        (input_size.1 - kernel_size + 2 * padding) / stride + 1,
    )
}

/// The feature counts of the convolutional network for a table of
/// `player_count` seats, `action_abstraction_count` slots and a history of
/// up to `max_action_per_street_cnt` actions per street.
pub fn calc_conv_features(
    player_count: u32,
    action_abstraction_count: u32,
    max_action_per_street_cnt: usize,
) -> (r: (i32, i32))
    requires
        conv_features_fit(
            player_count as int,
            action_abstraction_count as int,
            max_action_per_street_cnt as int,
        ),
    ensures
        r.0 == conv_features(
            player_count as int,
            action_abstraction_count as int,
            max_action_per_street_cnt as int,
        ).0,
        r.1 == conv_features(
            player_count as int,
            action_abstraction_count as int,
            max_action_per_street_cnt as int,
        ).1,
        r.0 == 288,
        0 <= r.1,
{
    let conv_factor: i32 = 2;
    let card_input_size: (i32, i32) = (13, 4);
    proof {
        lemma_conv_chain(13);
        lemma_conv_chain(4);
        lemma_conv_chain(6);
        lemma_conv_chain(2);
        lemma_conv_chain(action_abstraction_count as int);
        lemma_conv_chain(player_count + 2);
        lemma_conv_chain(cnn_size(action_abstraction_count as int, 2, 0, 2));
        lemma_conv_chain(cnn_size(player_count + 2, 2, 0, 2));
    }
    // Card conv 1 layer output size
    let mut card_conv_out_size = calc_cnn_size_wh(card_input_size, 3, 1, 1);
    // Max pooling layer
    card_conv_out_size = calc_cnn_size_wh(card_conv_out_size, 2, 0, 2);
    // Card conv 2 layer output size
    card_conv_out_size = calc_cnn_size_wh(card_conv_out_size, 3, 1, 1);
    assert(card_conv_out_size.0 == 6 && card_conv_out_size.1 == 2);
    // Get number of outputs
    let final_card_conv_size: i32 = card_conv_out_size.0 * card_conv_out_size.1 * 6 * conv_factor
        * conv_factor;

    // Calculate action size
    let action_input_size: (i32, i32) = (action_abstraction_count as i32, player_count as i32 + 2);
    // Action conv 1 layer output size
    let mut action_conv_out_size = calc_cnn_size_wh(action_input_size, 3, 1, 1);
    // Max pooling layer
    action_conv_out_size = calc_cnn_size_wh(action_conv_out_size, 2, 0, 2);
    // Action conv 2 layer output size
    action_conv_out_size = calc_cnn_size_wh(action_conv_out_size, 3, 1, 1);
    let width: i32 = action_conv_out_size.0;
    let height: i32 = action_conv_out_size.1;
    let history: i32 = max_action_per_street_cnt as i32;
    assert(width == conv_chain(action_abstraction_count as int));
    assert(height == conv_chain(player_count + 2));
    assert(0 <= width * height) by (nonlinear_arith)
        requires
            0 <= width,
            0 <= height,
    ;
    let cells: i32 = width * height;
    assert(0 <= cells * history <= cells * history * 16) by (nonlinear_arith)
        requires
            0 <= cells,
            0 <= history,
    ;
    assert(cells * history * 4 <= cells * history * 16 && cells * history * 4 * 2 <= cells
        * history * 16 && cells * history * 4 * 2 * 2 == cells * history * 16) by (nonlinear_arith)
        requires
            0 <= cells * history,
    ;
    // Get number of outputs
    let final_action_conv_size: i32 = cells * history * 4 * conv_factor * conv_factor;
    (final_card_conv_size, final_action_conv_size)
}

/// The feature counts of the residual network.
pub fn calc_twin_features(player_count: u32, action_abstraction_count: u32) -> (r: (usize, usize))
    requires
        player_count + 2 <= usize::MAX,
        action_abstraction_count * (player_count + 2) * 96 <= usize::MAX,
    ensures
        r.0 == twin_features(player_count as int, action_abstraction_count as int).0,
        r.1 == twin_features(player_count as int, action_abstraction_count as int).1,
        r.0 == 4992,
{
    let features_size: usize = 96;
    let card_input_size: (usize, usize) = (13, 4);
    let card_output_size: usize = card_input_size.0 * card_input_size.1 * features_size;
    let action_input_size: (usize, usize) = (
        action_abstraction_count as usize,
        player_count as usize + 2,
    );
    assert(0 <= action_input_size.0 * action_input_size.1 <= action_input_size.0
        * action_input_size.1 * 96) by (nonlinear_arith);
    let action_output_size: usize = action_input_size.0 * action_input_size.1 * features_size;
    (card_output_size, action_output_size)
}

} // verus!
