use bspline::fibonacci::fibonacci;

#[test]
fn test_fibonacci_small_values() {
    assert_eq!(fibonacci(0), 0);
    assert_eq!(fibonacci(1), 1);
    assert_eq!(fibonacci(2), 1);
    assert_eq!(fibonacci(3), 2);
    assert_eq!(fibonacci(10), 55);
    assert_eq!(fibonacci(42), 267_914_296);
}

#[test]
fn test_fibonacci_large_values() {
    assert_eq!(fibonacci(100), 354_224_848_179_261_915_075);
    assert_eq!(fibonacci(150), 9_969_216_677_189_303_386_214_405_760_200);
    assert_eq!(fibonacci(185), 205_697_230_343_233_228_174_223_751_303_346_572_685);
}

#[test]
fn test_fibonacci_recurrence() {
    for n in 2..90u32 {
        assert_eq!(fibonacci(n), fibonacci(n - 1) + fibonacci(n - 2));
    }
}
