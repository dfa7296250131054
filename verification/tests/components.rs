use felics::color_transform::{rgb_to_ycocg, ycocg_to_rgb};
use felics::parameter_selection::KEstimator;
use felics::predictor::nearest_neighbours;
use felics::rice_coding::RiceCoder;
use std::cmp::{max, min};
use std::collections::HashMap;

#[test]
fn test_color_transform8() {
    let (mut max_y, mut min_y) = (i32::MIN, i32::MAX);
    let (mut max_co, mut min_co) = (i32::MIN, i32::MAX);
    let (mut max_cg, mut min_cg) = (i32::MIN, i32::MAX);

    for r in 0..=u8::MAX {
        for g in 0..=u8::MAX {
            for b in 0..=u8::MAX {
                // First test reversibility.
                let (y, co, cg) = rgb_to_ycocg(r.into(), g.into(), b.into());
                let (rn, gn, bn) = ycocg_to_rgb(y, co, cg);

                let rn: u8 = rn.try_into().unwrap();
                let gn: u8 = gn.try_into().unwrap();
                let bn: u8 = bn.try_into().unwrap();

                assert_eq!(rn, r);
                assert_eq!(gn, g);
                assert_eq!(bn, b);

                max_y = max(max_y, y);
                min_y = min(min_y, y);
                max_co = max(max_co, co);
                min_co = min(min_co, co);
                max_cg = max(max_cg, cg);
                min_cg = min(min_cg, cg);
            }
        }
    }

    // Check to see if the max context in the YCoCg color space is small
    // enough for the 8-bit RGB channel coder.
    let max_context_y: u32 = (max_y - min_y).try_into().unwrap();
    let max_context_co: u32 = (max_co - min_co).try_into().unwrap();
    let max_context_cg: u32 = (max_cg - min_cg).try_into().unwrap();

    assert!(max_context_y <= 510);
    assert!(max_context_co <= 510);
    assert!(max_context_cg <= 510);
}

#[test]
fn test_color_transform16() {
    let values = [
        (0, u16::MAX, 0),
        (0, 0, u16::MAX),
        (u16::MAX, 0, 0),
        (u16::MAX, u16::MAX, u16::MAX),
        (u16::MAX, 0, u16::MAX),
        (1726, 12640, 26649),
        (0, 0, 0),
        (9127, 65535, 3),
    ];

    let (mut max_y, mut min_y) = (i32::MIN, i32::MAX);
    let (mut max_co, mut min_co) = (i32::MIN, i32::MAX);
    let (mut max_cg, mut min_cg) = (i32::MIN, i32::MAX);

    for (r, g, b) in values {
        let (y, co, cg) = rgb_to_ycocg(r.into(), g.into(), b.into());
        let (rn, gn, bn) = ycocg_to_rgb(y, co, cg);

        let rn: u16 = rn.try_into().unwrap();
        let gn: u16 = gn.try_into().unwrap();
        let bn: u16 = bn.try_into().unwrap();

        assert_eq!(rn, r);
        assert_eq!(gn, g);
        assert_eq!(bn, b);

        max_y = max(max_y, y);
        min_y = min(min_y, y);
        max_co = max(max_co, co);
        min_co = min(min_co, co);
        max_cg = max(max_cg, cg);
        min_cg = min(min_cg, cg);
    }

    // Check to see if the max context in the YCoCg color space is small
    // enough for the 16-bit RGB channel coder.
    let max_context_y: u32 = (max_y - min_y).try_into().unwrap();
    let max_context_co: u32 = (max_co - min_co).try_into().unwrap();
    let max_context_cg: u32 = (max_cg - min_cg).try_into().unwrap();

    assert!(max_context_y <= 131070);
    assert!(max_context_co <= 131070);
    assert!(max_context_cg <= 131070);
}

pub fn pti((x, y): (usize, usize), width: usize) -> usize {
    return y * width + x;
}

#[test]
fn test_nearest_neighbours() {
    let width = 23;

    assert_eq!(
        nearest_neighbours(pti((5, 8), width), width),
        Some((pti((4, 8), width), pti((5, 7), width)))
    );

    assert_eq!(
        nearest_neighbours(pti((0, 8), width), width),
        Some((pti((0, 7), width), pti((0, 6), width)))
    );

    assert_eq!(
        nearest_neighbours(pti((2, 0), width), width),
        Some((pti((1, 0), width), pti((0, 0), width)))
    );

    assert_eq!(
        nearest_neighbours(pti((1, 1), width), width),
        Some((pti((0, 1), width), pti((1, 0), width)))
    );
    assert_eq!(nearest_neighbours(pti((1, 0), width), width), None);

    assert_eq!(
        nearest_neighbours(pti((0, 1), width), width),
        Some((pti((0, 0), width), pti((1, 0), width)))
    );

    let width = 1;
    assert_eq!(nearest_neighbours(pti((0, 0), width), width), None);
    assert_eq!(nearest_neighbours(pti((0, 1), width), width), None);
    assert_eq!(
        nearest_neighbours(pti((0, 2), width), width),
        Some((pti((0, 1), width), pti((0, 0), width)))
    );
}

/// Check the corectnes of the context_map after some updates.
#[test]
fn parameter_selection_test_estimator_context_map() {
    let k_values = &[0, 1, 2, 4, 8, 16];
    let mut estimator = KEstimator::new(300, k_values, None);

    let mut add_to_context: HashMap<u32, Vec<u32>> = HashMap::new();

    add_to_context.insert(100, vec![4, 8, 13, 45, 85]);
    add_to_context.insert(80, vec![7, 800, 1000, 1273, 85]);
    add_to_context.insert(75, vec![7, 13, 1000, 200, 85]);
    add_to_context.insert(255, vec![1, 4, 142, 563, 1246, 2464]);
    add_to_context.insert(0, vec![0, 100, 3]);

    for (&context, values_in_context) in add_to_context.iter() {
        values_in_context
            .iter()
            .for_each(|&value| estimator.update(context, value));
    }

    for (&context, values_in_context) in add_to_context.iter() {
        for (i, &k) in k_values.iter().enumerate() {
            let coder = RiceCoder::new(k);
            let total_length: u32 = values_in_context
                .iter()
                .map(|&value| coder.code_length(value))
                .sum();
            assert_eq!(total_length, estimator.context_map(context)[i]);
        }
    }
}

#[test]
fn parameter_selection_test_estimator_get_k() {
    let k_values = &[0, 1, 2, 4, 5, 16];
    let mut estimator = KEstimator::new(400, k_values, None);

    let context = 100;

    estimator.update(context, 10);
    estimator.update(context, 40);
    estimator.update(context, 5);

    assert_eq!(estimator.get_k(context), 4);

    let context = 255;

    estimator.update(context, 1000);
    estimator.update(context, 200);
    estimator.update(context, 1250);
    estimator.update(context, 300);
    assert_eq!(estimator.get_k(context), 16);
}

#[test]
fn test_estimator_periodic_count_scaling() {
    let mut estimator = KEstimator::new(120, &[0, 1, 2], Some(1024));
    let context = 43;

    estimator.update(context, 400);
    //  k:      0    1     2
    //  len:   401  202   103
    //  total: 401  202   103

    estimator.update(context, 531);
    //  k:    0    1     2
    //  len: 532  267   135
    //  total: 933 469  238

    estimator.update(context, 2000);
    //  k:      0     1     2
    //  len:   2001  1002 503
    //  total: 2934  1471 741

    estimator.update(context, 1733);
    //  k:      0     1     2
    //  len:   1734  868   436
    //  total: 4668 2339  1177 (before scaling)

    let ks = estimator.context_map(context);
    assert_eq!(ks[0], 2334);
    assert_eq!(ks[1], 1169);
    assert_eq!(ks[2], 588);
}

/// Check the corectnes of the context_map after some updates.
#[test]
fn mod_test_estimator_context_map() {
    let k_values: &[u8] = &[0, 1, 2, 3, 4, 5];
    let mut estimator = KEstimator::new(255, k_values, None);

    let mut add_to_context: HashMap<u8, Vec<u8>> = HashMap::new();
    add_to_context.insert(100, vec![4, 8, 13, 45, 85]);
    add_to_context.insert(80, vec![7, 30, 221, 43, 85]);
    add_to_context.insert(75, vec![7, 13, 187, 78, 85]);
    add_to_context.insert(255, vec![1, 4, 255, 100, 99, 71]);
    add_to_context.insert(0, vec![0, 100, 3]);

    for (&context, values_in_context) in add_to_context.iter() {
        values_in_context
            .iter()
            .for_each(|&value| estimator.update(context.into(), value.into()));
    }

    for (&context, values_in_context) in add_to_context.iter() {
        for (i, &k) in k_values.iter().enumerate() {
            let coder = RiceCoder::new(k);
            let total_length: u32 = values_in_context
                .iter()
                .map(|&value| coder.code_length(value.into()))
                .sum();
            assert_eq!(total_length, estimator.context_map(context.into())[i]);
        }
    }
}

#[test]
fn mod_test_estimator_get_k() {
    let mut estimator = KEstimator::new(255, &[0, 1, 2, 3, 4, 5], None);

    let context = 100;

    estimator.update(context, 10);
    estimator.update(context, 40);
    estimator.update(context, 5);

    assert_eq!(estimator.get_k(context), 4);

    let context = 255;

    estimator.update(context, 23);
    estimator.update(context, 255);
    estimator.update(context, 255);
    estimator.update(context, 30);
    assert_eq!(estimator.get_k(context), 5);
}
