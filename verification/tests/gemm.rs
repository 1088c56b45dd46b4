use transformer::gemm::{GemmPlan, ShapeError};

#[test]
fn plan_without_transposition() {
    let plan = GemmPlan::new((2, 3), false, (3, 4), false).unwrap();
    assert_eq!((plan.m, plan.k, plan.n), (2, 3, 4));
    assert_eq!((plan.rsa, plan.csa), (3, 1));
    assert_eq!((plan.rsb, plan.csb), (4, 1));
}

#[test]
fn plan_reads_transposed_operands_by_their_strides() {
    // The first operand is stored as (3, 2) and read as (2, 3).
    let a = [1, 2, 3, 4, 5, 6];
    let plan = GemmPlan::new((3, 2), true, (5, 3), true).unwrap();
    assert_eq!((plan.m, plan.k, plan.n), (2, 3, 5));
    assert_eq!((plan.rsa, plan.csa), (1, 2));
    assert_eq!((plan.rsb, plan.csb), (1, 3));
    let read: Vec<i32> = (0..2)
        .flat_map(|i| (0..3).map(move |l| (i, l)))
        .map(|(i, l)| a[i * plan.rsa + l * plan.csa])
        .collect();
    assert_eq!(read, vec![1, 3, 5, 2, 4, 6]);
}

#[test]
fn operands_and_output_must_fit() {
    assert_eq!(GemmPlan::new((2, 3), false, (4, 5), false), Err(ShapeError::InnerMismatch));
    assert_eq!(
        GemmPlan::with_output((2, 3), false, (4, 5), false, (2, 5)),
        Err(ShapeError::InnerMismatch)
    );
    assert_eq!(
        GemmPlan::with_output((2, 3), false, (3, 5), false, (2, 4)),
        Err(ShapeError::OutputMismatch)
    );
    assert!(GemmPlan::with_output((2, 3), false, (3, 5), false, (2, 5)).is_ok());
}
