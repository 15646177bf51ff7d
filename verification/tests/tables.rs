use tinyavif::consts::{
    av1_cospi_arr_data, av1_txfm_fwd_range_mult2, av1_txfm_fwd_shift, av1_txfm_inv_shift,
    av1_txfm_inv_start_range, av1_txfm_stages, default_scan_4x4, default_scan_8x8,
    qindex_to_ac_q, qindex_to_dc_q, scan_order_2d, Coeff_Base_Ctx_Offset_8x8, Mag_Ref_Offset,
    Sig_Ref_Diff_Offset, COEFF_BASE_CONTEXTS, COEFF_BASE_EOB_CONTEXTS, COEFF_BR_CONTEXTS,
    DC_SIGN_CONTEXTS, MAX_SUPPORTED_EOB_CLASS, PLANE_TYPES, SUPPORTED_TX_SIZES,
    TOKEN_CDF_Q_CTXS, TXB_SKIP_CONTEXTS,
};

fn names_each_place_once(order: &[(u8, u8)], side: u8) -> bool {
    let mut seen = vec![false; side as usize * side as usize];
    for &(row, col) in order {
        if row >= side || col >= side {
            return false;
        }
        let at = row as usize * side as usize + col as usize;
        if seen[at] {
            return false;
        }
        seen[at] = true;
    }
    seen.iter().all(|&s| s)
}

#[test]
fn sizes_of_the_context_tables() {
    assert_eq!(PLANE_TYPES, 2);
    assert_eq!(SUPPORTED_TX_SIZES, 2);
    assert_eq!(MAX_SUPPORTED_EOB_CLASS, 6);
    assert_eq!(TOKEN_CDF_Q_CTXS, 4);
    assert_eq!(TXB_SKIP_CONTEXTS, 13);
    assert_eq!(COEFF_BASE_CONTEXTS, 26);
    assert_eq!(COEFF_BASE_EOB_CONTEXTS, 4);
    assert_eq!(COEFF_BR_CONTEXTS, 21);
    assert_eq!(DC_SIGN_CONTEXTS, 3);
}

#[test]
fn scan_orders_name_each_place_once() {
    assert!(names_each_place_once(&default_scan_4x4, 4));
    assert!(names_each_place_once(&default_scan_8x8, 8));
}

#[test]
fn scan_orders_start_at_the_corner_and_end_opposite() {
    assert_eq!(default_scan_4x4[0], (0, 0));
    assert_eq!(default_scan_4x4[15], (3, 3));
    assert_eq!(default_scan_8x8[0], (0, 0));
    assert_eq!(default_scan_8x8[63], (7, 7));
    assert_eq!(default_scan_4x4[3], (2, 0));
    assert_eq!(default_scan_8x8[10], (4, 0));
}

#[test]
fn scan_orders_by_transform_size() {
    let orders = scan_order_2d();
    assert_eq!(orders.len(), SUPPORTED_TX_SIZES);
    assert_eq!(orders[0], &default_scan_4x4[..]);
    assert_eq!(orders[1], &default_scan_8x8[..]);
}

#[test]
fn neighbour_offsets() {
    assert_eq!(Sig_Ref_Diff_Offset, [(0, 1), (1, 0), (1, 1), (0, 2), (2, 0)]);
    assert_eq!(Mag_Ref_Offset, [(0, 1), (1, 0), (1, 1)]);
    assert_eq!(Coeff_Base_Ctx_Offset_8x8[0], [0, 1, 6, 6, 21]);
    assert_eq!(Coeff_Base_Ctx_Offset_8x8[4], [21, 21, 21, 21, 21]);
    for row in 0..5 {
        for col in 0..5 {
            assert_eq!(Coeff_Base_Ctx_Offset_8x8[row][col], Coeff_Base_Ctx_Offset_8x8[col][row]);
        }
    }
}

#[test]
fn cosines_start_at_one_and_fall() {
    for (i, row) in av1_cospi_arr_data.iter().enumerate() {
        assert_eq!(row[0], 1024 << i);
        for j in 0..63 {
            assert!(0 < row[j + 1] && row[j + 1] <= row[j]);
        }
    }
    // cos(pi / 4) in each scale.
    assert_eq!(av1_cospi_arr_data[0][32], 724);
    assert_eq!(av1_cospi_arr_data[2][32], 2896);
    assert_eq!(av1_cospi_arr_data[3][32], 5793);
    assert_eq!(av1_cospi_arr_data[3][63], 201);
}

#[test]
fn transform_parameters() {
    assert_eq!(av1_txfm_stages, [4, 6]);
    assert_eq!(av1_txfm_fwd_shift, [[2, 0, 0], [2, -1, 0]]);
    assert_eq!(av1_txfm_fwd_range_mult2, [[0, 2, 3, 3, 0, 0], [0, 2, 4, 5, 5, 5]]);
    assert_eq!(av1_txfm_inv_shift, [[0, -4], [-1, -4]]);
    assert_eq!(av1_txfm_inv_start_range, [5, 6]);
}

#[test]
fn quantizer_steps_rise() {
    assert_eq!(qindex_to_dc_q[0], 4);
    assert_eq!(qindex_to_dc_q[255], 1336);
    assert_eq!(qindex_to_ac_q[0], 4);
    assert_eq!(qindex_to_ac_q[255], 1828);
    assert_eq!(qindex_to_dc_q[100], 93);
    assert_eq!(qindex_to_ac_q[100], 112);
    for i in 0..255 {
        assert!(0 < qindex_to_dc_q[i] && qindex_to_dc_q[i] <= qindex_to_dc_q[i + 1]);
        assert!(0 < qindex_to_ac_q[i] && qindex_to_ac_q[i] < qindex_to_ac_q[i + 1]);
    }
}
