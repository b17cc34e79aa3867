use mat_mult::lanes::{execute_mult_simd, execute_mult_sum_simd, lane_plan};
use mat_mult::matrix::FloatMatrix;
use mat_mult::multiply::{select_strategy, MultiplyStrategy};

fn both_strategies(m1: FloatMatrix<i32>, m2: FloatMatrix<i32>) -> Vec<i128> {
    let fast = m1.clone().multiply(m2.clone(), MultiplyStrategy::Vectorized).as_raw();
    let plain = m1.multiply(m2, MultiplyStrategy::Scalar).as_raw();
    assert_eq!(fast, plain);
    fast
}

#[test]
fn simd_mult_sum_small() {
    let result = execute_mult_sum_simd(&[0, 1, 2, 3, 4, 5], &[10, 20, 30, 40, 50, 60]);
    assert_eq!(result, 700);
}

#[test]
fn simd_mult_sum_big() {
    // 9900, 9901, 9902 etc.
    let vec1: Vec<i32> = (9900..10000).collect();
    // 99, 199, 299 etc.
    let vec2: Vec<i32> = (0..100).map(|x| (x * 100) + 99).collect();

    let result = execute_mult_sum_simd(vec1.as_slice(), vec2.as_slice());
    assert_eq!(result, 5031835050);
}

#[test]
fn square_matrix() {
    let m1 = FloatMatrix::new(vec![1, 2, 3, 4, 5, 6, 7, 8, 9], 3, 3);
    let m2 = m1.clone();

    let m3 = m1.multiply(m2, MultiplyStrategy::Vectorized);

    assert_eq!(m3.as_raw(), vec![30, 36, 42, 66, 81, 96, 102, 126, 150]);
}

#[test]
fn different_sized_small_matrix() {
    let m1 = FloatMatrix::new(vec![1, 2, 3, 4, 5, 6, 7, 8], 4, 2);
    let m2 = FloatMatrix::new(vec![1, 2, 3, 4, 5, 6, 7, 8, 9, 10, 11, 12], 3, 4);

    let m3 = m1.multiply(m2, MultiplyStrategy::Vectorized);

    assert_eq!(m3.dim(), (3, 2));
    assert_eq!(m3.as_raw(), vec![70, 80, 90, 158, 184, 210]);
}

#[test]
fn medium_square_matrix() {
    let mut m1_data = vec![];
    for i in 0..100 {
        m1_data.push(i);
    }

    let m1 = FloatMatrix::new(m1_data, 10, 10);
    let m2 = m1.clone();

    let m3 = m1.multiply(m2, MultiplyStrategy::Vectorized);

    assert_eq!(m3.as_raw(), vec![
        2850, 2895, 2940, 2985, 3030, 3075, 3120, 3165, 3210, 3255,
        7350, 7495, 7640, 7785, 7930, 8075, 8220, 8365, 8510, 8655,
        11850, 12095, 12340, 12585, 12830, 13075, 13320, 13565, 13810, 14055,
        16350, 16695, 17040, 17385, 17730, 18075, 18420, 18765, 19110, 19455,
        20850, 21295, 21740, 22185, 22630, 23075, 23520, 23965, 24410, 24855,
        25350, 25895, 26440, 26985, 27530, 28075, 28620, 29165, 29710, 30255,
        29850, 30495, 31140, 31785, 32430, 33075, 33720, 34365, 35010, 35655,
        34350, 35095, 35840, 36585, 37330, 38075, 38820, 39565, 40310, 41055,
        38850, 39695, 40540, 41385, 42230, 43075, 43920, 44765, 45610, 46455,
        43350, 44295, 45240, 46185, 47130, 48075, 49020, 49965, 50910, 51855,
    ]);
}

#[test]
fn scalar_path_gives_same_products() {
    let square = FloatMatrix::new(vec![1, 2, 3, 4, 5, 6, 7, 8, 9], 3, 3);
    assert_eq!(
        both_strategies(square.clone(), square),
        vec![30, 36, 42, 66, 81, 96, 102, 126, 150]
    );
    let wide = FloatMatrix::new(vec![1, 2, 3, 4, 5, 6, 7, 8], 4, 2);
    let tall = FloatMatrix::new(vec![1, 2, 3, 4, 5, 6, 7, 8, 9, 10, 11, 12], 3, 4);
    assert_eq!(both_strategies(wide, tall), vec![70, 80, 90, 158, 184, 210]);
}

#[test]
fn strategies_agree_on_long_rows_with_negatives() {
    // 1 by 131 times 131 by 2: rows long enough to use every lane width
    let lhs: Vec<i32> = (0..131).map(|x| x - 65).collect();
    let rhs: Vec<i32> = (0..262).map(|x| 3 * x - 400).collect();
    let expected: Vec<i128> = (0..2)
        .map(|c| {
            (0..131)
                .map(|i| lhs[i] as i128 * rhs[i * 2 + c] as i128)
                .sum()
        })
        .collect();
    let out = both_strategies(FloatMatrix::new(lhs, 131, 1), FloatMatrix::new(rhs, 2, 131));
    assert_eq!(out, expected);
}

#[test]
fn extreme_values_do_not_overflow() {
    let v = vec![i32::MIN; 70];
    assert_eq!(execute_mult_sum_simd(&v, &v), 70 * (1i128 << 62));
    let w = vec![i32::MAX; 3];
    assert_eq!(execute_mult_sum_simd(&v[..3], &w), -3 * (1i128 << 31) * (i32::MAX as i128));
}

#[test]
fn degenerate_operand_gives_empty_matrix() {
    let empty_rows = FloatMatrix::new(Vec::<i32>::new(), 3, 0);
    let other = FloatMatrix::new(vec![1, 2, 3, 4, 5, 6, 7, 8, 9, 10], 5, 2);
    let r = empty_rows.multiply(other.clone(), MultiplyStrategy::Vectorized);
    assert_eq!(r.dim(), (0, 0));
    assert!(r.as_raw().is_empty());

    let no_columns = FloatMatrix::new(Vec::<i32>::new(), 0, 4);
    let r = other.multiply(no_columns, MultiplyStrategy::Scalar);
    assert_eq!(r.dim(), (0, 0));
    assert!(r.as_raw().is_empty());
}

#[test]
fn naive_mult_with_empty_inner_dimension() {
    let lhs = FloatMatrix::new(Vec::<i32>::new(), 0, 2);
    let rhs = FloatMatrix::new(Vec::<i32>::new(), 3, 0);
    let r = lhs.naive_mult(rhs);
    assert_eq!(r.dim(), (3, 2));
    assert_eq!(r.as_raw(), vec![0; 6]);
}

#[test]
fn transpose_swaps_and_round_trips() {
    let m = FloatMatrix::new((0..12).collect::<Vec<i32>>(), 4, 3);
    let t = m.get_transpose();
    assert_eq!(t.dim(), (3, 4));
    assert_eq!(t.clone().as_raw(), vec![0, 4, 8, 1, 5, 9, 2, 6, 10, 3, 7, 11]);
    let back = t.get_transpose();
    assert_eq!(back.dim(), (4, 3));
    assert_eq!(back, m);
}

#[test]
fn rows_and_staged_columns() {
    let m = FloatMatrix::new((0..12).collect::<Vec<i32>>(), 4, 3);
    assert_eq!(m.get_row(0), &[0, 1, 2, 3]);
    assert_eq!(m.get_row(2), &[8, 9, 10, 11]);
    assert_eq!(
        m.column_buffers(),
        vec![vec![0, 4, 8], vec![1, 5, 9], vec![2, 6, 10], vec![3, 7, 11]]
    );
    assert!(!m.is_degenerate());
}

#[test]
fn lane_plan_descends_and_repeats() {
    assert_eq!(lane_plan(0), Vec::<usize>::new());
    assert_eq!(lane_plan(1), vec![1]);
    assert_eq!(lane_plan(6), vec![4, 2]);
    assert_eq!(lane_plan(7), vec![4, 2, 1]);
    assert_eq!(lane_plan(64), vec![64]);
    assert_eq!(lane_plan(129), vec![64, 32, 16, 8, 4, 2, 2, 1]);
    assert_eq!(lane_plan(200), vec![64, 32, 16, 8, 4, 2, 64, 8, 2]);
}

#[test]
fn elementwise_products_over_lanes() {
    let a: Vec<i32> = (0..71).collect();
    let b: Vec<i32> = (0..71).map(|x| 2 - x).collect();
    let p = execute_mult_simd(&a, &b);
    assert_eq!(p.len(), 71);
    for i in 0..71 {
        assert_eq!(p[i], (a[i] as i64) * (b[i] as i64));
    }
    assert_eq!(execute_mult_simd(&[i32::MIN], &[i32::MIN]), vec![1i64 << 62]);
}

#[test]
fn strategy_follows_feature_probe() {
    assert_eq!(select_strategy(true), MultiplyStrategy::Vectorized);
    assert_eq!(select_strategy(false), MultiplyStrategy::Scalar);
}
