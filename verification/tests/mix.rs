use crystald::buffer::AudioBuffer;
use crystald::mix::{halve, mix_into, mix_sample};

#[test]
fn halve_rounds_toward_negative_infinity() {
    assert_eq!(halve(100), 50);
    assert_eq!(halve(3), 1);
    assert_eq!(halve(1), 0);
    assert_eq!(halve(0), 0);
    assert_eq!(halve(-1), -1);
    assert_eq!(halve(-2), -1);
    assert_eq!(halve(-3), -2);
    assert_eq!(halve(i32::MAX), 1_073_741_823);
    assert_eq!(halve(i32::MIN), -1_073_741_824);
}

#[test]
fn mix_sample_adds_half_the_contribution() {
    assert_eq!(mix_sample(0, 100), 50);
    assert_eq!(mix_sample(50, 100), 100);
    assert_eq!(mix_sample(50, 3), 51);
    assert_eq!(mix_sample(10, -7), 6);
    assert_eq!(mix_sample(-10, -1), -11);
}

#[test]
fn mix_sample_clips_at_full_scale() {
    assert_eq!(mix_sample(i32::MAX, 2), i32::MAX);
    assert_eq!(mix_sample(i32::MAX, i32::MAX), i32::MAX);
    assert_eq!(mix_sample(i32::MAX - 1, 2), i32::MAX);
    assert_eq!(mix_sample(i32::MAX - 1, 1), i32::MAX - 1);
    assert_eq!(mix_sample(i32::MIN, -1), i32::MIN);
    assert_eq!(mix_sample(i32::MIN, i32::MIN), i32::MIN);
    assert_eq!(mix_sample(i32::MIN + 1, -1), i32::MIN);
    assert_eq!(mix_sample(i32::MAX, i32::MIN), i32::MAX - 1_073_741_824);
    assert_eq!(mix_sample(i32::MIN, i32::MAX), i32::MIN + 1_073_741_823);
}

#[test]
fn mix_into_works_sample_by_sample() {
    let mut aggregate = AudioBuffer::new(4);
    let mut shadow = AudioBuffer::new(4);
    aggregate.load(&[0, 50, i32::MAX, -1]).unwrap();
    shadow.load(&[100, 3, 100, -3]).unwrap();
    mix_into(&mut aggregate, &shadow);
    assert_eq!(aggregate.as_slice(), &[50, 51, i32::MAX, -3]);
    assert_eq!(shadow.as_slice(), &[100, 3, 100, -3]);
}

#[test]
fn mixing_order_shows_once_the_sum_clips() {
    let inputs: [i32; 4] = [i32::MAX, i32::MAX, i32::MAX, i32::MIN];
    let mut forward = 0;
    for sample in inputs {
        forward = mix_sample(forward, sample);
    }
    let mut backward = 0;
    for sample in inputs.iter().rev() {
        backward = mix_sample(backward, *sample);
    }
    assert_eq!(forward, 1_073_741_823);
    assert_eq!(backward, 2_147_483_645);
}
