use cdbe::LaneWidth;
use cdbe::LogicalOp;
use cdbe::SimdOp;
use cdbe::combine_masks;
use cdbe::filter_scalar_32;
use cdbe::filter_simd_32;
use cdbe::filter_simd_32_wide;
use cdbe::filter_simd_dispatch;
use cdbe::filter_with_logical_op;

const ALL_OPS: [SimdOp; 6] = [
    SimdOp::Eq,
    SimdOp::Ne,
    SimdOp::Lt,
    SimdOp::Gt,
    SimdOp::Le,
    SimdOp::Ge,
];

fn scalar_reference(buffer: &[i32], t: i32, op: SimdOp) -> Vec<usize> {
    let mut out = Vec::new();
    for (j, &v) in buffer.iter().enumerate() {
        let matched = match op {
            SimdOp::Eq => v == t,
            SimdOp::Ne => v != t,
            SimdOp::Lt => v < t,
            SimdOp::Gt => v > t,
            SimdOp::Le => v <= t,
            SimdOp::Ge => v >= t,
        };
        if matched {
            out.push(j);
        }
    }
    out
}

#[test]
fn kernels_agree_with_scalar_on_all_lane_boundaries() {
    // lengths straddling both the 4-lane and the 8-lane boundary
    let base: Vec<i32> = vec![25, 30, 40, 50, -7, 30, i32::MIN, i32::MAX, 0, 29, 31, 30];
    for len in [0usize, 1, 2, 3, 4, 5, 7, 8, 9, 12] {
        let buf = &base[..len];
        for t in [29i32, 30, i32::MIN, i32::MAX, 0] {
            for op in ALL_OPS {
                let expected = scalar_reference(buf, t, op);
                assert_eq!(filter_scalar_32(buf, t, op), expected);
                assert_eq!(filter_simd_32(buf, t, op), expected);
                assert_eq!(filter_simd_32_wide(buf, t, op), expected);
                assert_eq!(filter_simd_dispatch(buf, t, op, LaneWidth::Narrow), expected);
                assert_eq!(filter_simd_dispatch(buf, t, op, LaneWidth::Wide), expected);
            }
        }
    }
}

#[test]
fn kernel_positions_are_ascending_without_duplicates() {
    let buf = vec![30, 30, 30, 30, 30, 30, 30, 30, 30];
    let r = filter_simd_32(&buf, 29, SimdOp::Gt);
    assert_eq!(r, vec![0, 1, 2, 3, 4, 5, 6, 7, 8]);
}

#[test]
fn gt_filter_over_employee_ages() {
    let buf = vec![25, 30, 40, 50];
    assert_eq!(filter_simd_32(&buf, 29, SimdOp::Gt), vec![1, 2, 3]);
    assert_eq!(filter_simd_32_wide(&buf, 29, SimdOp::Gt), vec![1, 2, 3]);
}

#[test]
fn derived_operators_negate_their_complement() {
    let buf = vec![1, 2, 3, 4, 5, 6, 7, 8, 9];
    for t in [0i32, 4, 9] {
        let gt: Vec<usize> = filter_simd_32(&buf, t, SimdOp::Gt);
        let le: Vec<usize> = filter_simd_32(&buf, t, SimdOp::Le);
        let mut both: Vec<usize> = gt.iter().chain(le.iter()).cloned().collect();
        both.sort();
        assert_eq!(both, (0..buf.len()).collect::<Vec<usize>>());
        assert!(gt.iter().all(|i| !le.contains(i)));
    }
}

fn as_sorted(mut v: Vec<usize>) -> Vec<usize> {
    v.sort();
    v
}

#[test]
fn combine_masks_computes_intersection_and_union() {
    let m1 = vec![0usize, 2, 4, 6];
    let m2 = vec![1usize, 2, 3, 4];
    assert_eq!(
        as_sorted(combine_masks(&m1, &m2, LogicalOp::And)),
        vec![2, 4]
    );
    assert_eq!(
        as_sorted(combine_masks(&m1, &m2, LogicalOp::Or)),
        vec![0, 1, 2, 3, 4, 6]
    );
}

#[test]
fn combine_masks_deduplicates() {
    let m1 = vec![3usize, 3, 1];
    let m2 = vec![3usize, 3, 2];
    assert_eq!(as_sorted(combine_masks(&m1, &m2, LogicalOp::And)), vec![3]);
    assert_eq!(
        as_sorted(combine_masks(&m1, &m2, LogicalOp::Or)),
        vec![1, 2, 3]
    );
}

#[test]
fn logical_filter_equals_combining_independent_kernels() {
    let b1 = vec![25, 30, 40, 50, 60, 10, 20];
    let b2 = vec![1, 0, 1, 0, 1, 1, 0];
    for logic in [LogicalOp::And, LogicalOp::Or] {
        let got = filter_with_logical_op(&b1, SimdOp::Gt, 29, &b2, SimdOp::Eq, 1, logic);
        let k1 = filter_simd_32(&b1, 29, SimdOp::Gt);
        let k2 = filter_simd_32(&b2, 1, SimdOp::Eq);
        let expected: Vec<usize> = match logic {
            LogicalOp::And => k1.iter().cloned().filter(|i| k2.contains(i)).collect(),
            LogicalOp::Or => {
                let mut u = k1.clone();
                for i in &k2 {
                    if !u.contains(i) {
                        u.push(*i);
                    }
                }
                u
            }
        };
        assert_eq!(as_sorted(got), as_sorted(expected));
    }
}

#[test]
fn empty_buffers_produce_empty_results() {
    let empty: Vec<i32> = vec![];
    for op in ALL_OPS {
        assert!(filter_simd_32(&empty, 0, op).is_empty());
        assert!(filter_simd_32_wide(&empty, 0, op).is_empty());
    }
    assert!(filter_with_logical_op(&empty, SimdOp::Eq, 0, &empty, SimdOp::Eq, 0, LogicalOp::Or).is_empty());
}
