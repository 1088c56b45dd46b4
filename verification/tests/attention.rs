use transformer::matrix::Matrix;
use transformer::multi_head_attention::{
    assemble_w_kv, block_range, causal_mask, is_hidden, num_blocks, slice_w_k, slice_w_v,
    HeadShape, FA_BLOCK_SIZE,
};

#[test]
fn heads_divide_the_model() {
    let s = HeadShape::new(768, 12, 4);
    assert_eq!(s.d_head, 64);
    assert_eq!(s.d_kv_model, 256);
    assert_eq!(s.group_size(), 3);
    let used: Vec<usize> = (0..12).map(|h| s.kv_head(h)).collect();
    assert_eq!(used, vec![0, 0, 0, 1, 1, 1, 2, 2, 2, 3, 3, 3]);
    let single = HeadShape::new(512, 8, 1);
    assert!((0..8).all(|h| single.kv_head(h) == 0));
    let own = HeadShape::new(512, 8, 8);
    assert!((0..8).all(|h| own.kv_head(h) == h));
}

#[test]
fn mask_hides_what_comes_later() {
    assert_eq!(
        causal_mask(3),
        vec![
            vec![false, true, true],
            vec![false, false, true],
            vec![false, false, false],
        ]
    );
    assert!(causal_mask(0).is_empty());
}

#[test]
fn blocks_cover_all_tokens() {
    assert_eq!(num_blocks(0), 0);
    assert_eq!(num_blocks(1), 1);
    assert_eq!(num_blocks(FA_BLOCK_SIZE), 1);
    assert_eq!(num_blocks(FA_BLOCK_SIZE + 1), 2);
    assert_eq!(block_range(600, 0), (0, 256));
    assert_eq!(block_range(600, 1), (256, 512));
    assert_eq!(block_range(600, 2), (512, 600));
    assert_eq!(block_range(512, 1), (256, 512));
}

#[test]
fn blocks_show_what_the_mask_shows() {
    let n = 300;
    let mask = causal_mask(n);
    for query in (0..n).step_by(7) {
        for key in 0..n {
            let (i, j) = (query / FA_BLOCK_SIZE, key / FA_BLOCK_SIZE);
            let computed = j <= i
                && !is_hidden(i, j, query - i * FA_BLOCK_SIZE, key - j * FA_BLOCK_SIZE);
            assert_eq!(computed, !mask[query][key]);
        }
    }
}

#[test]
fn fused_weights_are_cut_and_fused() {
    let w = Matrix::from_jagged(&[vec![1, 2, 3, 4], vec![5, 6, 7, 8]]);
    let k = slice_w_k(&w);
    let v = slice_w_v(&w);
    assert_eq!(k.to_jagged(), vec![vec![1, 2], vec![5, 6]]);
    assert_eq!(v.to_jagged(), vec![vec![3, 4], vec![7, 8]]);
    assert_eq!(assemble_w_kv(&k, &v, 2, 2).data(), w.data());
    // Only the columns that the layer has are taken.
    let wide = Matrix::from_jagged(&[vec![1, 2, 9], vec![5, 6, 9]]);
    assert_eq!(assemble_w_kv(&wide, &v, 2, 2).data(), w.data());
}
