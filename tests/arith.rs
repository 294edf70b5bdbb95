use flowline::arith::{add, compute, factorial, loop_sum, modify, multiply, process};

#[test]
fn compute_adds_sum_and_product() {
    assert_eq!(add(10, 20), 30);
    assert_eq!(multiply(10, 20), 200);
    assert_eq!(compute(10, 20), 230);
    assert_eq!(compute(-3, 4), -11);
}

#[test]
fn loop_sum_is_triangular() {
    assert_eq!(loop_sum(5), 15);
    assert_eq!(loop_sum(0), 0);
    assert_eq!(loop_sum(-4), 0);
    assert_eq!(loop_sum(65535), 2147450880);
}

#[test]
fn factorial_values() {
    assert_eq!(factorial(5), 120);
    assert_eq!(factorial(0), 1);
    assert_eq!(factorial(-2), 1);
    assert_eq!(factorial(12), 479001600);
}

#[test]
fn modify_and_process() {
    let mut x = 5;
    modify(&mut x, 3);
    assert_eq!(x, 8);
    assert_eq!(process(x, 10, 15), 450);
}
