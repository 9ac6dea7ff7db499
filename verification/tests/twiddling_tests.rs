#[test]
fn it_works() {
    assert_eq!(4, 4);
}

fn twiddling_mirror(num: u64) -> u64 {
    let mut build_num = 0;
    for i in 0..64 {
        let mut mask = 1 << i;
        mask = num & mask;
        mask = mask >> i;
        mask = mask << (63 - i);
        build_num = build_num | mask;
    }
    build_num
}

#[test]
fn test_mirror() {
    assert_eq!(twiddling_mirror(1), (2 as u64).pow(63));

    assert_eq!(1, twiddling_mirror(twiddling_mirror(1)));

    assert_eq!(134524122134234, twiddling_mirror(twiddling_mirror(134524122134234)));
}
