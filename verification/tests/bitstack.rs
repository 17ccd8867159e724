use psychopath::bitstack::BitStack128;

#[test]
fn push() {
    let mut bs = BitStack128::new();
    bs.push(true);
    bs.push(false);
    bs.push(true);
    bs.push(true);
    bs.push(false);
    bs.push(true);
    bs.push(true);
    bs.push(true);

    assert!(bs.data.0 == 0b10110111);
    assert!(bs.data.1 == 0);
}

#[test]
fn push_overflow() {
    let mut bs = BitStack128::new();
    for _ in 0..9 {
        bs.push(true);
        bs.push(false);
        bs.push(true);
        bs.push(true);
        bs.push(false);
        bs.push(true);
        bs.push(true);
        bs.push(true);
    }

    assert!(bs.data.0 == 0b1011011110110111101101111011011110110111101101111011011110110111);
    assert!(bs.data.1 == 0b10110111);
}

#[test]
fn pop() {
    let mut bs = BitStack128::new();
    bs.data.0 = 0b10110111;

    assert!(bs.pop() == true);
    assert!(bs.pop() == true);
    assert!(bs.pop() == true);
    assert!(bs.pop() == false);
    assert!(bs.pop() == true);
    assert!(bs.pop() == true);
    assert!(bs.pop() == false);
    assert!(bs.pop() == true);
}

#[test]
fn pop_overflow() {
    let mut bs = BitStack128::new();
    bs.data.0 = 0b1011011110110111101101111011011110110111101101111011011110110111;
    bs.data.1 = 0b10110111;
    for _ in 0..9 {
        assert!(bs.pop() == true);
        assert!(bs.pop() == true);
        assert!(bs.pop() == true);
        assert!(bs.pop() == false);
        assert!(bs.pop() == true);
        assert!(bs.pop() == true);
        assert!(bs.pop() == false);
        assert!(bs.pop() == true);
    }
}

#[test]
fn push_n() {
    let mut bs = BitStack128::new();
    bs.push_n(0b10110, 5);
    bs.push_n(0b10110111, 8);

    assert!(bs.data.0 == 0b1011010110111);
}

#[test]
fn push_n_overflow() {
    let mut bs = BitStack128::new();
    for _ in 0..9 {
        bs.push_n(0b10110111, 8);
    }

    assert!(bs.data.0 == 0b1011011110110111101101111011011110110111101101111011011110110111);
    assert!(bs.data.1 == 0b10110111);
}

#[test]
fn pop_n() {
    let mut bs = BitStack128::new();
    bs.data.0 = 0b0010_1000_1100_1110_0101_0111;

    assert!(bs.pop_n(4) == 0b0111);
    assert!(bs.data.0 == 0b0010_1000_1100_1110_0101);

    assert!(bs.pop_n(4) == 0b0101);
    assert!(bs.data.0 == 0b0010_1000_1100_1110);

    assert!(bs.pop_n(4) == 0b1110);
    assert!(bs.data.0 == 0b0010_1000_1100);

    assert!(bs.pop_n(4) == 0b1100);
    assert!(bs.data.0 == 0b0010_1000);

    assert!(bs.pop_n(4) == 0b1000);
    assert!(bs.data.0 == 0b0010);

    assert!(bs.pop_n(4) == 0b0010);
    assert!(bs.data.0 == 0);
}

#[test]
fn pop_n_overflow() {
    let mut bs = BitStack128::new();
    bs.data.0 = 0b1011011110110111101101111011011110110111101101111011011110110111;
    bs.data.1 = 0b10110111;
    for _ in 0..9 {
        assert!(bs.pop_n(8) == 0b10110111);
    }
}

#[test]
fn pop_to_nth() {
    let mut bs = BitStack128::new();
    bs.data.0 = 0b0010_1000_1100_1110_0101_0111;

    assert!(bs.pop_to_nth(4) == false);
    assert!(bs.data.0 == 0b0010_1000_1100_1110_0101);

    assert!(bs.pop_to_nth(4) == false);
    assert!(bs.data.0 == 0b0010_1000_1100_1110);

    assert!(bs.pop_to_nth(4) == true);
    assert!(bs.data.0 == 0b0010_1000_1100);

    assert!(bs.pop_to_nth(4) == true);
    assert!(bs.data.0 == 0b0010_1000);

    assert!(bs.pop_to_nth(4) == true);
    assert!(bs.data.0 == 0b0010);

    assert!(bs.pop_to_nth(4) == false);
    assert!(bs.data.0 == 0);
}

#[test]
fn pop_to_nth_overflow() {
    let mut bs = BitStack128::new();
    bs.data.0 = 0b00110111_10110111_00110111_10110111_00110111_10110111_00110111_10110111;
    bs.data.1 = 0b00110111_10110111;
    for _ in 0..5 {
        assert!(bs.pop_to_nth(8) == true);
        assert!(bs.pop_to_nth(8) == false);
    }
}

#[test]
fn peek() {
    let mut bs = BitStack128::new();
    bs.data.0 = 0b10110111;

    assert!(bs.peek() == true);
    bs.pop();

    assert!(bs.peek() == true);
    bs.pop();

    assert!(bs.peek() == true);
    bs.pop();

    assert!(bs.peek() == false);
    bs.pop();

    assert!(bs.peek() == true);
    bs.pop();

    assert!(bs.peek() == true);
    bs.pop();

    assert!(bs.peek() == false);
    bs.pop();

    assert!(bs.peek() == true);
}

#[test]
fn peek_n() {
    let mut bs = BitStack128::new();
    bs.data.0 = 0b10110111;

    assert!(bs.peek_n(4) == 0b0111);
    bs.pop_n(4);

    assert!(bs.peek_n(4) == 0b1011);
    bs.pop_n(4);
}

#[test]
fn new_with_1_starts_with_a_set_bit() {
    let mut bs = BitStack128::new_with_1();
    assert_eq!(bs.data, (1, 0));
    assert!(bs.pop());
    assert_eq!(bs.data, (0, 0));
}

#[test]
fn pop_undoes_push() {
    let mut bs = BitStack128::new();
    bs.data = (0x0123_4567_89ab_cdef, 0x0fed_cba9_8765_4321);
    let before = bs.data;
    bs.push(true);
    assert!(bs.pop());
    assert_eq!(bs.data, before);
    bs.push_n(0b1011, 4);
    assert_eq!(bs.pop_n(4), 0b1011);
    assert_eq!(bs.data, before);
}

#[test]
fn peek_matches_pop() {
    let mut bs = BitStack128::new();
    bs.data = (0b1101_0110, 7);
    let p = bs.peek_n(6);
    assert_eq!(bs.pop_n(6), p);
}

#[test]
fn push_n_is_single_pushes() {
    for count in 1..=8u8 {
        for value in [0u8, 1, 0x55, 0xaa, 0xff] {
            let value = if count == 8 { value } else { value & ((1u8 << count) - 1) };
            let mut a = BitStack128::new_with_1();
            a.push(true);
            let mut b = a;
            a.push_n(value, count);
            for i in (0..count).rev() {
                b.push((value >> i) & 1 == 1);
            }
            assert_eq!(a.data, b.data);
        }
    }
}
