use sharkbench::percentile::{p1, p50, p99};

fn n(n: usize) -> Vec<i32> {
    let mut values: Vec<i32> = Vec::new();
    for i in 1..=n {
        values.push(i as i32);
    }
    values
}

#[test]
fn test_p1_of_1_value() {
    let values: Vec<i32> = n(1);
    assert_eq!(p1(&values), 1);
}

#[test]
fn test_p1_of_2_values() {
    let values: Vec<i32> = n(2);
    assert_eq!(p1(&values), 2);
}

#[test]
fn test_p1_of_10_values() {
    let values: Vec<i32> = n(10);
    assert_eq!(p1(&values), 2);
}

#[test]
fn test_p1_of_100_values() {
    let values: Vec<i32> = n(100);
    assert_eq!(p1(&values), 2);
}

#[test]
fn test_p1_of_1000_values() {
    let values: Vec<i32> = n(1000);
    assert_eq!(p1(&values), 11);
}

#[test]
fn test_p50_of_1_value() {
    let values: Vec<i32> = n(1);
    assert_eq!(p50(&values), 1);
}

#[test]
fn test_p50_of_2_values() {
    let values: Vec<i32> = n(2);
    assert_eq!(p50(&values), 1);
}

#[test]
fn test_p50_of_10_values() {
    let values: Vec<i32> = n(10);
    assert_eq!(p50(&values), 5);
}

#[test]
fn test_p50_of_100_values() {
    let values: Vec<i32> = n(100);
    assert_eq!(p50(&values), 50);
}

#[test]
fn test_p50_of_1000_values() {
    let values: Vec<i32> = n(1000);
    assert_eq!(p50(&values), 500);
}

#[test]
fn test_p99_of_10_values() {
    let values: Vec<i32> = n(10);
    assert_eq!(p99(&values), 9);
}

#[test]
fn test_p99_of_100_values() {
    let values: Vec<i32> = n(100);
    assert_eq!(p99(&values), 99);
}

#[test]
fn test_p99_of_1000_values() {
    let values: Vec<i32> = n(1000);
    assert_eq!(p99(&values), 990);
}

#[test]
fn low_tail_stays_at_or_below_median() {
    for len in [1usize, 4, 5, 10, 100, 1000] {
        let values = n(len);
        assert!(p1(&values) <= p50(&values), "violated at len {}", len);
    }
}
