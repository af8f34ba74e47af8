use ray_tracing_in_one_weekend::color::{write_color, write_decimal};

fn decimal_of(n: i32) -> Vec<u8> {
    let mut out = Vec::new();
    write_decimal(&mut out, n);
    out
}

fn line_of(r: i32, g: i32, b: i32) -> Vec<u8> {
    let mut out = Vec::new();
    write_color(&mut out, r, g, b);
    out
}

#[test]
fn decimal_of_small_numbers() {
    assert_eq!(decimal_of(0), b"0".to_vec());
    assert_eq!(decimal_of(7), b"7".to_vec());
    assert_eq!(decimal_of(9), b"9".to_vec());
    assert_eq!(decimal_of(10), b"10".to_vec());
    assert_eq!(decimal_of(255), b"255".to_vec());
    assert_eq!(decimal_of(1000), b"1000".to_vec());
    assert_eq!(decimal_of(1280), b"1280".to_vec());
}

#[test]
fn decimal_of_negative_numbers() {
    assert_eq!(decimal_of(-1), b"-1".to_vec());
    assert_eq!(decimal_of(-10), b"-10".to_vec());
    assert_eq!(decimal_of(-255), b"-255".to_vec());
}

#[test]
fn decimal_of_the_largest_and_smallest() {
    assert_eq!(decimal_of(i32::MAX), b"2147483647".to_vec());
    assert_eq!(decimal_of(i32::MIN), b"-2147483648".to_vec());
}

#[test]
fn decimal_agrees_with_the_machine() {
    let mut state: u64 = 0x9E37_79B9_7F4A_7C15;
    for _ in 0..50_000 {
        state ^= state << 13;
        state ^= state >> 7;
        state ^= state << 17;
        let n = (state >> 9) as u32 as i32;
        assert_eq!(decimal_of(n), format!("{}", n).into_bytes());
    }
    for n in -1000..=1000 {
        assert_eq!(decimal_of(n), format!("{}", n).into_bytes());
    }
}

#[test]
fn decimal_is_appended() {
    let mut out = b"x=".to_vec();
    write_decimal(&mut out, 42);
    write_decimal(&mut out, -7);
    assert_eq!(out, b"x=42-7".to_vec());
}

#[test]
fn line_of_a_pixel() {
    assert_eq!(line_of(0, 0, 0), b"0 0 0\n".to_vec());
    assert_eq!(line_of(255, 255, 255), b"255 255 255\n".to_vec());
    assert_eq!(line_of(12, 0, 200), b"12 0 200\n".to_vec());
    assert_eq!(line_of(-1, 300, 7), b"-1 300 7\n".to_vec());
}

#[test]
fn line_agrees_with_the_machine() {
    for r in [0, 1, 9, 10, 99, 100, 128, 255] {
        for g in [0, 5, 64, 255] {
            for b in [0, 17, 254, 255] {
                assert_eq!(line_of(r, g, b), format!("{} {} {}\n", r, g, b).into_bytes());
            }
        }
    }
}

#[test]
fn lines_are_appended_in_turn() {
    let mut out = Vec::new();
    write_color(&mut out, 1, 2, 3);
    write_color(&mut out, 40, 50, 60);
    assert_eq!(out, b"1 2 3\n40 50 60\n".to_vec());
}

#[test]
fn different_pixels_have_different_lines() {
    assert_ne!(line_of(1, 23, 4), line_of(12, 3, 4));
    assert_ne!(line_of(1, 2, 34), line_of(1, 23, 4));
    assert_ne!(line_of(0, 0, 1), line_of(0, 0, -1));
}

#[test]
fn white_after_one_sample_is_255() {
    // One sample of (1, 1, 1): the mean is 1, its square root 1, clamped to 0.999, times 256.
    let samples: u32 = 1;
    let scale = 1.0 / samples as f32;
    let channel = |sum: f32| -> i32 {
        let gamma = (sum * scale).sqrt();
        let clamped = 0.0f32.max(0.999f32.min(gamma));
        (256.0 * clamped) as i32
    };
    let (r, g, b) = (channel(1.0), channel(1.0), channel(1.0));
    assert_eq!((r, g, b), (255, 255, 255));
    assert_eq!(line_of(r, g, b), b"255 255 255\n".to_vec());
}

#[test]
fn black_is_zero() {
    let channel = |sum: f32| -> i32 { (256.0 * 0.0f32.max(0.999f32.min(sum.sqrt()))) as i32 };
    assert_eq!(line_of(channel(0.0), channel(0.0), channel(0.0)), b"0 0 0\n".to_vec());
}
