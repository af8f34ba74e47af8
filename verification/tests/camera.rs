use ray_tracing_in_one_weekend::camera::Image;
use ray_tracing_in_one_weekend::single::round_trip;

fn oracle(n: i32) -> i32 {
    (n as f32 / 1.0) as i32
}

#[test]
fn new_keeps_width_and_height() {
    let image = Image::new(400, 225);
    assert_eq!(image.width, 400);
    assert_eq!(image.height, 225);
    let image = Image::new(-3, 0);
    assert_eq!(image.width, -3);
    assert_eq!(image.height, 0);
}

#[test]
fn default_is_640_by_480() {
    let image = Image::default();
    assert_eq!(image.width, 640);
    assert_eq!(image.height, 480);
}

#[test]
fn with_width_is_square_for_usual_widths() {
    for width in [1, 2, 400, 640, 1280, 4096, 16_777_215, 16_777_216] {
        let image = Image::with_width(width);
        assert_eq!(image.width, width);
        assert_eq!(image.height, width);
    }
    let image = Image::with_width(0);
    assert_eq!((image.width, image.height), (0, 0));
    let image = Image::with_width(-1280);
    assert_eq!((image.width, image.height), (-1280, -1280));
}

#[test]
fn with_width_rounds_to_single_precision() {
    // Above two to the power 24 only every second number is kept.
    assert_eq!(Image::with_width(16_777_217).height, 16_777_216);
    assert_eq!(Image::with_width(16_777_218).height, 16_777_218);
    // Half way between two numbers that are kept, the even multiple wins.
    assert_eq!(Image::with_width(16_777_219).height, 16_777_220);
    assert_eq!(Image::with_width(33_554_434).height, 33_554_432);
    assert_eq!(Image::with_width(33_554_438).height, 33_554_440);
    assert_eq!(Image::with_width(-16_777_217).height, -16_777_216);
    assert_eq!(Image::with_width(-16_777_219).height, -16_777_220);
    // The width itself is never changed.
    assert_eq!(Image::with_width(16_777_217).width, 16_777_217);
}

#[test]
fn with_width_saturates_at_the_largest_number() {
    assert_eq!(Image::with_width(i32::MAX).height, i32::MAX);
    assert_eq!(Image::with_width(2_147_483_584).height, i32::MAX);
    assert_eq!(Image::with_width(2_147_483_583).height, 2_147_483_520);
    assert_eq!(Image::with_width(2_147_483_520).height, 2_147_483_520);
    assert_eq!(Image::with_width(i32::MIN).height, i32::MIN);
    assert_eq!(Image::with_width(i32::MIN + 1).height, i32::MIN);
    assert_eq!(Image::with_width(-2_147_483_583).height, -2_147_483_520);
}

#[test]
fn round_trip_agrees_with_the_machine_at_the_edges() {
    let mut edges: Vec<i32> = vec![0, 1, -1, i32::MAX, i32::MIN, i32::MAX - 1, i32::MIN + 1];
    for power in 20..31 {
        let p: i32 = 1 << power;
        for offset in -260..=260 {
            edges.push(p + offset);
            edges.push(-(p + offset));
        }
    }
    for back in 0..600 {
        edges.push(i32::MAX - back);
        edges.push(i32::MIN + back);
    }
    for n in edges {
        assert_eq!(round_trip(n), oracle(n), "for {}", n);
        assert_eq!(Image::with_width(n).height, oracle(n), "for {}", n);
    }
}

#[test]
fn round_trip_agrees_with_the_machine_on_scattered_numbers() {
    let mut state: u64 = 0x2545_F491_4F6C_DD1D;
    for _ in 0..200_000 {
        state ^= state << 13;
        state ^= state >> 7;
        state ^= state << 17;
        let n = (state >> 11) as u32 as i32;
        assert_eq!(round_trip(n), oracle(n), "for {}", n);
    }
}

#[test]
fn round_trip_twice_is_round_trip_once() {
    for n in [0, 5, 16_777_217, 123_456_789, -987_654_321, i32::MAX, i32::MIN, 2_147_483_583] {
        let once = round_trip(n);
        assert_eq!(round_trip(once), once);
    }
}

#[test]
fn clamped_keeps_a_height_of_one_or_more() {
    let image = Image::clamped(400, 225);
    assert_eq!((image.width, image.height), (400, 225));
    let image = Image::clamped(400, 1);
    assert_eq!((image.width, image.height), (400, 1));
    let image = Image::clamped(7, i32::MAX);
    assert_eq!((image.width, image.height), (7, i32::MAX));
}

#[test]
fn clamped_raises_a_smaller_height_to_one() {
    let image = Image::clamped(400, 0);
    assert_eq!((image.width, image.height), (400, 1));
    let image = Image::clamped(1, -50);
    assert_eq!((image.width, image.height), (1, 1));
    let image = Image::clamped(-9, i32::MIN);
    assert_eq!((image.width, image.height), (-9, 1));
}

#[test]
fn clamped_height_of_a_wide_picture() {
    // A picture of width 1 and sixteen to nine has no whole row: it gets one.
    let width = 1;
    let size = (width as f32 / (16.0 / 9.0)) as i32;
    assert_eq!(size, 0);
    assert_eq!(Image::clamped(width, size).height, 1);
    let width = 400;
    let size = (width as f32 / (16.0f32 / 9.0)) as i32;
    assert_eq!(Image::clamped(width, size).height, 225);
}

#[test]
fn aspect_drops_the_fraction() {
    assert_eq!(Image::new(1280, 720).aspect(), 1);
    assert_eq!(Image::new(1280, 1280).aspect(), 1);
    assert_eq!(Image::new(400, 225).aspect(), 1);
    assert_eq!(Image::new(800, 200).aspect(), 4);
    assert_eq!(Image::new(200, 800).aspect(), 0);
    assert_eq!(Image::new(7, 1).aspect(), 7);
    assert_eq!(Image::new(0, 5).aspect(), 0);
}

#[test]
fn aspect_rounds_towards_zero() {
    assert_eq!(Image::new(-7, 2).aspect(), -3);
    assert_eq!(Image::new(7, -2).aspect(), -3);
    assert_eq!(Image::new(-7, -2).aspect(), 3);
    assert_eq!(Image::new(i32::MIN, 1).aspect(), i32::MIN);
    assert_eq!(Image::new(i32::MIN, 2).aspect(), -1_073_741_824);
    assert_eq!(Image::new(i32::MAX, -1).aspect(), -i32::MAX);
    assert_eq!(Image::new(5, i32::MIN).aspect(), 0);
    assert_eq!(Image::new(i32::MIN, i32::MIN).aspect(), 1);
}

#[test]
fn aspect_agrees_with_the_machine() {
    for width in [-100, -7, -1, 0, 1, 3, 16, 99, 1280] {
        for height in [-33, -9, -2, -1, 1, 2, 5, 9, 720] {
            assert_eq!(Image::new(width, height).aspect(), width / height);
        }
    }
}

#[test]
fn image_can_be_copied() {
    let image = Image::new(3, 4);
    let copy = image;
    let clone = image.clone();
    assert_eq!((image.width, image.height), (copy.width, copy.height));
    assert_eq!((image.width, image.height), (clone.width, clone.height));
}
