use ringbuffer::stats::{mean, mean_square_deviation, windowed_mean, windowed_mean_square_deviation};
use ringbuffer::RingBuffer;

type DataUnit = i32;

fn new_test_buffer() -> RingBuffer<DataUnit, 512> {
    let array = [0_i32; 512];
    RingBuffer::new(array)
}

fn ac_rms_of<const N: usize>(buffer: &RingBuffer<DataUnit, N>, m: DataUnit) -> f32 {
    libm::sqrtf(mean_square_deviation(buffer, m).unwrap() as f32)
}

fn assert_almost_eq(left: f32, right: f32, epsilon: f32) {
    let diff = left - right;
    assert!(diff.abs() <= epsilon, "left {} right {} epsilon {}", left, right, epsilon);
}

#[test]
fn mean_small_delta() {
    let mut buffer: RingBuffer<DataUnit, 512> = new_test_buffer();
    let n = 15 << 10;
    for idx in n..(n + buffer.capacity()) {
        buffer.add(idx as i32);
    }
    let actual_mean = n as i32 + (buffer.capacity() as i32) / 2 - 1;
    assert_eq!(mean(&buffer), actual_mean);
}

#[test]
fn mean_wide_step_size() {
    let mut buffer: RingBuffer<DataUnit, 512> = new_test_buffer();
    for idx in 0..buffer.capacity() {
        buffer.add((idx as i32) << 10);
    }
    let actual_mean = ((buffer.capacity() as i32) - 1) << 9;
    assert_eq!(mean(&buffer), actual_mean);
}

#[test]
fn mean_no_overflow() {
    let mut buffer: RingBuffer<DataUnit, 512> = new_test_buffer();
    let max_val = (0x1 << 30) - 1 as i32;
    for _idx in 0..buffer.capacity() {
        buffer.add(max_val);
    }
    assert_eq!(mean(&buffer), max_val);
}

#[test]
fn mean_larger_buffer() {
    let array = [0_i32; 4096];
    let mut buffer: RingBuffer<DataUnit, 4096> = RingBuffer::new(array);

    let n = 25 << 10;
    for idx in n..(n + buffer.capacity()) {
        buffer.add(idx as i32);
    }
    let actual_mean = n as i32 + (buffer.capacity() as i32) / 2 - 1;
    assert_eq!(mean(&buffer), actual_mean);
}

#[test]
fn test_windowed_mean() {
    let array = [0; 6];
    let mut buffer: RingBuffer<DataUnit, 6> = RingBuffer::new(array);

    let data = [0, 1, 2, 3, 4, 5];
    for val in data.iter() {
        buffer.add(*val as i32);
    }
    assert_eq!(windowed_mean(&buffer, 5), 3);
}

#[test]
fn ac_rms_sine() {
    let func = |val: usize| libm::sin(val as f64) * 1000000_f64;
    let expected_result = 707128.4729105555_f32;

    let mut buffer: RingBuffer<DataUnit, 512> = new_test_buffer();
    let capacity = buffer.capacity();
    for idx in 0..capacity {
        buffer.add(func(idx) as i32);
    }
    let buf_mean = mean(&buffer);
    assert_almost_eq(ac_rms_of(&buffer, buf_mean), expected_result, 0.1);
}

#[test]
fn ac_rms_sine_dc_offset() {
    let func = |val: usize| libm::sin(val as f64) * 1000000_f64;
    let expected_result = 707128.4729105555_f32;

    let mut buffer: RingBuffer<DataUnit, 512> = new_test_buffer();
    let capacity = buffer.capacity();
    let offset = 1000000_i32;
    for idx in 0..capacity {
        buffer.add(func(idx) as i32 + offset);
    }
    let buf_mean = mean(&buffer);
    assert_almost_eq(ac_rms_of(&buffer, buf_mean), expected_result, 0.1);
}

#[test]
fn ac_rms_no_overflow() {
    let expected_result = 4194303.0_f32;

    let mut buffer: RingBuffer<DataUnit, 512> = new_test_buffer();
    let capacity = buffer.capacity();
    let max_val: i32 = (0x1 << 22) - 1;
    let min_val: i32 = -1 * ((0x1 << 22) - 1);
    for idx in 0..capacity {
        if idx % 2 == 0 {
            buffer.add(max_val);
        } else {
            buffer.add(min_val);
        }
    }
    let buf_mean = mean(&buffer);
    assert_almost_eq(ac_rms_of(&buffer, buf_mean), expected_result, 0.005);
}

#[test]
fn mean_truncates_towards_zero() {
    let mut buffer: RingBuffer<DataUnit, 4> = RingBuffer::new([0; 4]);
    buffer.add(-3);
    buffer.add(-4);
    // (-7) / 2 rounds towards zero.
    assert_eq!(mean(&buffer), -3);
    let mut positive: RingBuffer<DataUnit, 4> = RingBuffer::new([0; 4]);
    positive.add(3);
    positive.add(4);
    assert_eq!(mean(&positive), 3);
}

#[test]
fn mean_of_unsigned_and_narrow_types() {
    let mut bytes: RingBuffer<u8, 3> = RingBuffer::new([0; 3]);
    bytes.add(250);
    bytes.add(251);
    bytes.add(255);
    assert_eq!(mean(&bytes), 252);
    let mut shorts: RingBuffer<i16, 2> = RingBuffer::new([0; 2]);
    shorts.add(-30000);
    shorts.add(-20000);
    assert_eq!(mean(&shorts), -25000);
}

#[test]
fn mean_divides_by_sample_count() {
    let mut buffer: RingBuffer<DataUnit, 4> = RingBuffer::new([0; 4]);
    for i in 1..8 {
        buffer.add(i * 3);
    }
    // Samples 12, 15, 18, 21 sum to 66, divided by 4.
    assert_eq!(mean(&buffer), 16);
    let mut b: RingBuffer<DataUnit, 4> = RingBuffer::new([0; 4]);
    for i in 1..=7 {
        b.add(i);
    }
    assert_eq!(mean(&b), 5);
    assert_eq!(mean_square_deviation(&b, 5), Some(1));
    assert_almost_eq(ac_rms_of(&b, 5), 1.0, 1e-6);
    let mut two: RingBuffer<DataUnit, 2> = RingBuffer::new([0; 2]);
    two.add(1);
    two.add(2);
    two.add(3);
    assert_eq!(mean(&two), 2);
}

#[test]
fn windowed_mean_takes_newest_samples() {
    let mut buffer: RingBuffer<DataUnit, 8> = RingBuffer::new([0; 8]);
    for v in [1, 2, 3, 10, 20] {
        buffer.add(v);
    }
    assert_eq!(windowed_mean(&buffer, 2), 15);
    assert_eq!(windowed_mean(&buffer, 3), 11);
    // A window longer than the contents divides by the reported length.
    assert_eq!(windowed_mean(&buffer, 100), 7);
}

#[test]
fn windowed_mean_reaches_sample_behind_head() {
    let mut buffer: RingBuffer<DataUnit, 3> = RingBuffer::new([0; 3]);
    for v in [100, 1, 2, 3] {
        buffer.add(v);
    }
    // Holds 1, 2, 3 with 1 behind head.
    assert_eq!(windowed_mean(&buffer, 3), 2);
    let mut b: RingBuffer<DataUnit, 4> = RingBuffer::new([0; 4]);
    for v in [10, 20, 30, 40] {
        b.add(v);
    }
    assert_eq!(windowed_mean(&b, 4), 25);
    assert_eq!(windowed_mean(&b, 9), 25);
    assert_eq!(windowed_mean(&b, 3), 30);
    assert_eq!(windowed_mean_square_deviation(&b, 25, 4), Some(125));
    assert_almost_eq(
        libm::sqrtf(windowed_mean_square_deviation(&b, 25, 4).unwrap() as f32),
        11.18034,
        1e-4,
    );
}

#[test]
fn mean_square_deviation_exact() {
    let mut buffer: RingBuffer<DataUnit, 4> = RingBuffer::new([0; 4]);
    for v in [1, 3, 5, 7] {
        buffer.add(v);
    }
    let m = mean(&buffer);
    assert_eq!(m, 4);
    // (9 + 1 + 1 + 9) / 4
    assert_eq!(mean_square_deviation(&buffer, m), Some(5));
    // Newest two: (9 + 1) / 2
    assert_eq!(windowed_mean_square_deviation(&buffer, m, 2), Some(5));
    // All four: (9 + 1 + 1 + 9) / 4
    assert_eq!(windowed_mean_square_deviation(&buffer, m, 4), Some(5));
}

#[test]
fn mean_square_deviation_ignores_offset() {
    let mut a: RingBuffer<DataUnit, 4> = RingBuffer::new([0; 4]);
    let mut b: RingBuffer<DataUnit, 4> = RingBuffer::new([0; 4]);
    for v in [2, -6, 9, 11] {
        a.add(v);
        b.add(v + 1000);
    }
    assert_eq!(mean_square_deviation(&a, 4), mean_square_deviation(&b, 1004));
}

#[test]
fn mean_square_deviation_reports_overflow_as_none() {
    // Distances are taken from the values, not in the sample type.
    let mut shorts: RingBuffer<u16, 4> = RingBuffer::new([0; 4]);
    shorts.add(1);
    shorts.add(3);
    assert_eq!(mean_square_deviation(&shorts, 2), Some(1));
    assert_eq!(mean_square_deviation(&shorts, 0), Some(5));
    // A distance beyond i128.
    let mut huge: RingBuffer<u128, 2> = RingBuffer::new([0; 2]);
    huge.add(u128::MAX);
    assert_eq!(mean_square_deviation(&huge, 0), None);
    // A squared distance beyond i128.
    let mut wide: RingBuffer<i128, 2> = RingBuffer::new([0; 2]);
    wide.add(1_i128 << 64);
    assert_eq!(mean_square_deviation(&wide, 0), None);
    // A sum of squares beyond i128.
    let mut big: RingBuffer<i128, 4> = RingBuffer::new([0; 4]);
    big.add(1_i128 << 63);
    big.add(1_i128 << 63);
    assert_eq!(mean_square_deviation(&big, 0), None);
    assert_eq!(windowed_mean_square_deviation(&big, 0, 1), Some(1_i128 << 126));
    // Nothing to divide by.
    let empty: RingBuffer<i32, 4> = RingBuffer::new([0; 4]);
    assert_eq!(mean_square_deviation(&empty, 0), None);
    assert_eq!(windowed_mean_square_deviation(&shorts, 0, 0), None);
}

#[test]
fn mean_of_extreme_i64_samples_does_not_overflow() {
    let mut b: RingBuffer<i64, 3> = RingBuffer::new([0; 3]);
    b.add(i64::MAX);
    b.add(i64::MAX);
    assert_eq!(mean(&b), i64::MAX);
    let mut c: RingBuffer<i64, 3> = RingBuffer::new([0; 3]);
    c.add(i64::MIN);
    c.add(i64::MIN);
    c.add(i64::MIN);
    assert_eq!(mean(&c), i64::MIN);
    assert_eq!(windowed_mean(&c, 2), i64::MIN);
}

#[test]
fn windowed_mean_square_deviation_of_wide_window() {
    let mut buffer: RingBuffer<i32, 8> = RingBuffer::new([0; 8]);
    for v in [0, 10, 20] {
        buffer.add(v);
    }
    // (100 + 0 + 100) / 3
    assert_eq!(windowed_mean_square_deviation(&buffer, 10, 50), Some(66));
    assert_eq!(mean_square_deviation(&buffer, 10), Some(66));
}

#[test]
fn mean_square_deviation_of_samples_beyond_i128() {
    let mut huge: RingBuffer<u128, 2> = RingBuffer::new([0; 2]);
    huge.add(u128::MAX);
    assert_eq!(mean_square_deviation(&huge, u128::MAX), Some(0));
    assert_eq!(windowed_mean_square_deviation(&huge, u128::MAX, 1), Some(0));
    huge.add(u128::MAX - 4);
    // Distances 2 and -2 around the mean.
    assert_eq!(mean_square_deviation(&huge, u128::MAX - 2), Some(4));
    assert_eq!(mean_square_deviation(&huge, u128::MAX), Some(8));
    assert_eq!(windowed_mean_square_deviation(&huge, u128::MAX, 1), Some(16));
    // A DC offset changes nothing.
    let mut small: RingBuffer<u128, 2> = RingBuffer::new([0; 2]);
    small.add(5);
    let mut shifted: RingBuffer<u128, 2> = RingBuffer::new([0; 2]);
    shifted.add(5 + (u128::MAX - 5));
    assert_eq!(mean_square_deviation(&small, 5), Some(0));
    assert_eq!(mean_square_deviation(&shifted, u128::MAX), Some(0));
    // Signed samples at the ends of i128.
    let mut signed: RingBuffer<i128, 2> = RingBuffer::new([0; 2]);
    signed.add(i128::MIN);
    assert_eq!(mean_square_deviation(&signed, i128::MIN + 3), Some(9));
    assert_eq!(mean_square_deviation(&signed, i128::MAX), None);
}
