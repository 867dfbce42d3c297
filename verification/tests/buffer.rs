use crystald::buffer::{AudioBuffer, SAMPLE_BYTES};
use crystald::error::SchemeError;

#[test]
fn new_buffer_is_silent() {
    let buffer = AudioBuffer::new(256);
    assert_eq!(buffer.len(), 256);
    assert!(buffer.as_slice().iter().all(|&sample| sample == 0));
}

#[test]
fn empty_buffer() {
    let mut buffer = AudioBuffer::new(0);
    assert_eq!(buffer.len(), 0);
    assert_eq!(buffer.get(0), None);
    assert!(!buffer.set(0, 1));
    assert_eq!(buffer.load(&[]), Ok(0));
    assert_eq!(buffer.map(3, 0), Ok(3));
}

#[test]
fn get_and_set_are_bounds_checked() {
    let mut buffer = AudioBuffer::new(3);
    assert!(buffer.set(0, -5));
    assert!(buffer.set(2, 7));
    assert!(!buffer.set(3, 9));
    assert!(!buffer.set(usize::MAX, 9));
    assert_eq!(buffer.get(0), Some(-5));
    assert_eq!(buffer.get(1), Some(0));
    assert_eq!(buffer.get(2), Some(7));
    assert_eq!(buffer.get(3), None);
    assert_eq!(buffer.as_slice(), &[-5, 0, 7]);
    assert_eq!(buffer.len(), 3);
}

#[test]
fn zero_silences_every_sample() {
    let mut buffer = AudioBuffer::new(4);
    buffer.load(&[1, -2, 3, i32::MIN]).unwrap();
    buffer.zero();
    assert_eq!(buffer.as_slice(), &[0, 0, 0, 0]);
}

#[test]
fn load_wants_the_buffers_length() {
    let mut buffer = AudioBuffer::new(2);
    assert_eq!(buffer.load(&[4, 5]), Ok(2));
    assert_eq!(buffer.as_slice(), &[4, 5]);
    assert_eq!(buffer.load(&[1]), Err(SchemeError::Einval));
    assert_eq!(buffer.load(&[1, 2, 3]), Err(SchemeError::Einval));
    assert_eq!(buffer.load(&[]), Err(SchemeError::Einval));
    assert_eq!(buffer.as_slice(), &[4, 5]);
}

#[test]
fn map_takes_the_length_in_bytes() {
    let buffer = AudioBuffer::new(256);
    assert_eq!(SAMPLE_BYTES, 4);
    assert_eq!(buffer.map(17, 1024), Ok(17));
    assert_eq!(buffer.map(17, 256), Err(SchemeError::Einval));
    assert_eq!(buffer.map(17, 1020), Err(SchemeError::Einval));
    assert_eq!(buffer.map(17, 1026), Err(SchemeError::Einval));
    assert_eq!(buffer.map(17, 2048), Err(SchemeError::Einval));
    assert_eq!(buffer.map(17, usize::MAX), Err(SchemeError::Einval));
}
