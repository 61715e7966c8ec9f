use sched_alloc::profiling::{func1, func2, result_of_sum};

#[test]
fn result_of_sum_adds() {
    assert_eq!(result_of_sum(51, 110), 161);
    assert_eq!(result_of_sum(-5, 3), -2);
}

#[test]
fn func1_returns_the_sum_whatever_its_sign() {
    assert_eq!(func1(51, 110), 161);
    assert_eq!(func1(-10, 4), -6);
    assert_eq!(func1(0, 0), 0);
}

#[test]
fn func2_returns_a_positive_sum() {
    assert_eq!(func2(51, 110), 161);
    assert_eq!(func2(1, 0), 1);
}

#[test]
fn func2_returns_zero_for_a_sum_that_is_not_positive() {
    assert_eq!(func2(-10, 4), 0);
    assert_eq!(func2(3, -3), 0);
    assert_eq!(func2(i32::MIN, 0), 0);
}
