use differential_dataflow::difference::{Abelian, DiffPair, DiffVector, Monoid};
use differential_dataflow::Diff;

#[test]
fn integers_zero_and_is_zero() {
    assert_eq!(<isize as Monoid>::zero(), 0);
    assert_eq!(<i128 as Monoid>::zero(), 0);
    assert_eq!(<i64 as Monoid>::zero(), 0);
    assert_eq!(<i32 as Monoid>::zero(), 0);
    assert_eq!(<i16 as Monoid>::zero(), 0);
    assert_eq!(<i8 as Monoid>::zero(), 0);
    assert!(Monoid::is_zero(&0isize));
    assert!(!Monoid::is_zero(&-3i64));
    assert!(Monoid::is_zero(&0i8));
}

#[test]
fn integers_add_assign_and_negate() {
    let mut x: i32 = 5;
    Monoid::add_assign(&mut x, &-7);
    assert_eq!(x, -2);
    assert_eq!(Abelian::negate(x), 2);
    let mut y: i8 = 100;
    Monoid::add_assign(&mut y, &27);
    assert_eq!(y, 127);
    assert_eq!(Monoid::duplicate(&y), 127);
}

#[test]
fn integer_added_to_its_negation_is_zero() {
    for v in [-5isize, 0, 7, isize::MAX] {
        let mut x = v;
        Monoid::add_assign(&mut x, &Abelian::negate(v));
        assert!(Monoid::is_zero(&x));
    }
}

#[test]
fn diff_pair_new_sets_both_elements() {
    let p = DiffPair::new(3isize, -4i64);
    assert_eq!(p.element1, 3);
    assert_eq!(p.element2, -4);
}

#[test]
fn diff_pair_zero_is_zero() {
    let z: DiffPair<isize, i32> = Monoid::zero();
    assert_eq!(z, DiffPair::new(0, 0));
    assert!(z.is_zero());
    assert!(!DiffPair::new(0isize, 1i32).is_zero());
    assert!(!DiffPair::new(1isize, 0i32).is_zero());
}

#[test]
fn diff_pair_add_assign_adds_each_element() {
    let mut p = DiffPair::new(1isize, 10i64);
    p.add_assign(&DiffPair::new(2, -30));
    assert_eq!(p, DiffPair::new(3, -20));
}

#[test]
fn diff_pair_neg_and_negate() {
    let p = DiffPair::new(2isize, -7i32);
    assert_eq!(-p, DiffPair::new(-2, 7));
    assert_eq!(p.negate(), DiffPair::new(-2, 7));
}

#[test]
fn diff_pair_added_to_its_negation_is_zero() {
    let p = DiffPair::new(5isize, DiffPair::new(-3i64, 8i16));
    let mut q = p;
    q.add_assign(&-p);
    assert!(q.is_zero());
}

#[test]
fn diff_pair_mul_scales_each_element() {
    let p = DiffPair::new(2isize, -3isize);
    assert_eq!(p * 4isize, DiffPair::new(8, -12));
}

#[test]
fn diff_pair_duplicate_is_equal() {
    let p = DiffPair::new(9i128, 1i8);
    assert_eq!(p.duplicate(), p);
}

#[test]
fn diff_pair_addition_commutes() {
    let a = DiffPair::new(4isize, -1i32);
    let b = DiffPair::new(-9isize, 6i32);
    let mut ab = a;
    ab.add_assign(&b);
    let mut ba = b;
    ba.add_assign(&a);
    assert_eq!(ab, ba);
}

#[test]
fn diff_vector_new_keeps_updates() {
    let v = DiffVector::new(vec![1isize, -2, 3]);
    assert_eq!(&v[..], &[1, -2, 3]);
    let items: Vec<isize> = v.into_iter().collect();
    assert_eq!(items, vec![1, -2, 3]);
}

#[test]
fn diff_vector_zero_is_empty() {
    let z: DiffVector<isize> = Monoid::zero();
    assert_eq!(z[..].len(), 0);
    assert!(z.is_zero());
}

#[test]
fn diff_vector_is_zero_checks_every_update() {
    assert!(DiffVector::new(vec![0isize, 0, 0]).is_zero());
    assert!(!DiffVector::new(vec![0isize, 1, 0]).is_zero());
}

#[test]
fn diff_vector_add_assign_same_length() {
    let mut v = DiffVector::new(vec![1isize, 2, 3]);
    v.add_assign(&DiffVector::new(vec![10, 20, 30]));
    assert_eq!(&v[..], &[11, 22, 33]);
}

#[test]
fn diff_vector_add_assign_shorter_rhs() {
    let mut v = DiffVector::new(vec![1isize, 2, 3]);
    v.add_assign(&DiffVector::new(vec![10]));
    assert_eq!(&v[..], &[11, 2, 3]);
}

#[test]
fn diff_vector_add_assign_longer_rhs_pads_with_zero() {
    let mut v = DiffVector::new(vec![1isize]);
    v.add_assign(&DiffVector::new(vec![10, 20]));
    assert_eq!(&v[..], &[11, 20]);
    let mut w = DiffVector::new(vec![1isize]);
    w.add_assign(&DiffVector::new(vec![2, 3]));
    assert_eq!(&w[..], &[3, 3]);
}

#[test]
fn diff_vector_add_zero_on_the_left_changes_nothing() {
    let mut z: DiffVector<isize> = Monoid::zero();
    z.add_assign(&DiffVector::new(vec![5]));
    assert_eq!(&z[..], &[5]);
}

#[test]
fn diff_vector_addition_commutes_across_lengths() {
    let a = DiffVector::new(vec![1isize]);
    let b = DiffVector::new(vec![2isize, 3]);
    let mut ab = a.duplicate();
    ab.add_assign(&b);
    let mut ba = b.duplicate();
    ba.add_assign(&a);
    assert_eq!(ab, ba);
    assert_eq!(&ab[..], &[3, 3]);
}

#[test]
fn diff_vector_addition_associates_across_lengths() {
    let a = DiffVector::new(vec![1isize, 2, 3]);
    let b = DiffVector::new(vec![10isize]);
    let c = DiffVector::new(vec![100isize, 200]);
    let mut ab_c = a.duplicate();
    ab_c.add_assign(&b);
    ab_c.add_assign(&c);
    let mut bc = b.duplicate();
    bc.add_assign(&c);
    let mut a_bc = a.duplicate();
    a_bc.add_assign(&bc);
    assert_eq!(ab_c, a_bc);
    assert_eq!(&ab_c[..], &[111, 202, 3]);
}

#[test]
fn diff_vector_add_zero_on_the_right_changes_nothing() {
    let mut v = DiffVector::new(vec![4isize, -4]);
    v.add_assign(&Monoid::zero());
    assert_eq!(&v[..], &[4, -4]);
}

#[test]
fn diff_vector_neg_negates_every_update() {
    let v = DiffVector::new(vec![1isize, -2, 0]);
    let n = -v;
    assert_eq!(&n[..], &[-1, 2, 0]);
}

#[test]
fn diff_vector_added_to_its_negation_is_zero() {
    let v = DiffVector::new(vec![DiffPair::new(1isize, 2i32), DiffPair::new(-3, 4)]);
    let mut w = v.duplicate();
    w.add_assign(&v.negate());
    assert!(w.is_zero());
    assert_eq!(w[..].len(), 2);
}

#[test]
fn diff_vector_mul_scales_every_update() {
    let v = DiffVector::new(vec![1i64, -2, 3]);
    let m = v * 3i64;
    assert_eq!(&m[..], &[3, -6, 9]);
}

#[test]
fn diff_vector_duplicate_is_equal() {
    let v = DiffVector::new(vec![7i16, 8]);
    assert_eq!(v.duplicate(), v);
}

#[test]
fn diff_alias_names_abelian() {
    fn double_negate<R: Diff>(r: R) -> R {
        r.negate().negate()
    }
    assert_eq!(double_negate(5isize), 5);
    assert_eq!(double_negate(DiffPair::new(1isize, -1i64)), DiffPair::new(1, -1));
}

#[test]
fn diff_vector_deref_mut_changes_updates() {
    let mut v = DiffVector::new(vec![1isize, 2, 3]);
    v[1] = 20;
    assert_eq!(&v[..], &[1, 20, 3]);
    assert_eq!(v.len(), 3);
}

#[test]
fn add_fits_tells_whether_a_sum_overflows() {
    assert!(5isize.add_fits(&7));
    assert!(!isize::MAX.add_fits(&1));
    assert!(!i8::MIN.add_fits(&-1));
    assert!(DiffPair::new(1isize, 2i64).add_fits(&DiffPair::new(3, 4)));
    assert!(!DiffPair::new(1isize, i64::MAX).add_fits(&DiffPair::new(3, 1)));
    assert!(DiffVector::new(vec![1isize]).add_fits(&DiffVector::new(vec![isize::MAX - 1, isize::MAX])));
    assert!(!DiffVector::new(vec![1isize, 2]).add_fits(&DiffVector::new(vec![isize::MAX])));
}

#[test]
fn diff_pair_is_zero_only_when_equal_to_zero() {
    assert!(DiffPair::new(0isize, 0i64).is_zero());
    assert!(!DiffPair::new(0isize, 1i64).is_zero());
    assert!(DiffPair::<DiffVector<isize>, isize>::zero().is_zero());
    assert!(!DiffPair::new(DiffVector::new(vec![0isize]), 0isize).is_zero());
}

#[test]
fn is_identity_compares_with_zero() {
    assert!(0i32.is_identity());
    assert!(!(-2i32).is_identity());
    assert!(DiffVector::<isize>::zero().is_identity());
    assert!(!DiffVector::new(vec![0isize]).is_identity());
    assert!(DiffVector::new(vec![0isize]).is_zero());
}

#[test]
fn diff_pair_mul_scales_vector_elements() {
    let p = DiffPair::new(DiffVector::new(vec![2isize, -1]), 3isize) * 5isize;
    assert_eq!(&p.element1[..], &[10, -5]);
    assert_eq!(p.element2, 15);
}
