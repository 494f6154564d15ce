use qua_ten_net::natural::Natural;

#[test]
fn natural_adds_with_carry() {
    let max = Natural::from_usize(usize::MAX);
    let twice = max.plus(&max);
    assert!(twice.equals(&max.times(2)));
    assert!(twice.exceeds(&max));
    assert!(!max.exceeds(&twice));
    let one = Natural::from_usize(1);
    let next = max.plus(&one);
    assert!(next.exceeds(&max));
    assert!(twice.plus(&one).plus(&one).equals(&next.times(2)));
}

#[test]
fn natural_multiplies_beyond_one_limb() {
    let mut power = Natural::from_usize(1);
    for _ in 0..40 {
        power = power.times(1000);
    }
    let mut same = Natural::from_usize(1);
    for _ in 0..20 {
        same = same.times(1_000_000);
    }
    assert!(power.equals(&same));
    assert!(power.times(3).exceeds(&same.times(2)));
    assert!(!power.times(2).exceeds(&same.times(3)));
    assert!(power.plus(&power).equals(&same.times(2)));
}

#[test]
fn natural_zero_is_neutral_and_absorbing() {
    let zero = Natural::zero();
    let seven = Natural::from_usize(7);
    assert!(zero.equals(&Natural::from_usize(0)));
    assert!(seven.plus(&zero).equals(&seven));
    assert!(seven.times(0).equals(&zero));
    assert!(!zero.exceeds(&zero));
    assert!(seven.exceeds(&zero));
    assert!(seven.duplicate().equals(&seven));
    assert!(seven.times(6).equals(&Natural::from_usize(42)));
}
