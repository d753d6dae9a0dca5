use wav2vec_burn::util::log_space::{LogSpaceF32, NEG_INFINITY_BITS};

fn log_of(value: f32) -> LogSpaceF32 {
    LogSpaceF32::from_log_bits(value.to_bits())
}

fn log_value(p: LogSpaceF32) -> f32 {
    f32::from_bits(p.log_bits())
}

fn log_sum(hi: LogSpaceF32, lo: LogSpaceF32) -> LogSpaceF32 {
    let hi_log = log_value(hi);
    log_of(hi_log + (log_value(lo) - hi_log).exp().ln_1p())
}

#[test]
fn zero_is_the_identity_of_addition() {
    let p = log_of(-0.7);
    assert_eq!(LogSpaceF32::zero().add(p, &log_sum).log_bits(), p.log_bits());
    assert_eq!(p.add(LogSpaceF32::default(), &log_sum).log_bits(), p.log_bits());
    assert_eq!(LogSpaceF32::default().log_bits(), NEG_INFINITY_BITS);
}

#[test]
fn addition_is_commutative() {
    let a = log_of(f32::ln(0.1));
    let b = log_of(f32::ln(0.6));
    assert_eq!(a.add(b, &log_sum).log_bits(), b.add(a, &log_sum).log_bits());
    assert!((log_value(a.add(b, &log_sum)) - f32::ln(0.7)).abs() < 1e-6);
}

#[test]
fn zero_and_one() {
    assert!(LogSpaceF32::zero().is_zero());
    assert!(log_of(f32::NEG_INFINITY).is_zero());
    assert!(!LogSpaceF32::one().is_zero());
    assert_eq!(log_value(LogSpaceF32::one()), 0.0);
}

#[test]
fn order_is_f32_total_cmp() {
    let values = [f32::NEG_INFINITY, -1.5, -0.0, 0.0, 2.0, f32::INFINITY, f32::NAN, -f32::NAN];
    for a in values {
        for b in values {
            let expected = a.total_cmp(&b) == std::cmp::Ordering::Less;
            assert_eq!(log_of(a).total_lt(&log_of(b)), expected, "{a} < {b}");
        }
    }
}
