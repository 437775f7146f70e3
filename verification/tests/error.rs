use arena_alligator::{AllocError, BufferFullError, BuildError};

#[test]
fn alloc_error_display() {
    let err = AllocError::ArenaFull;
    assert_eq!(err.to_string(), "arena is full");
}

#[test]
fn build_error_display_variants() {
    assert_eq!(
        BuildError::SizeOverflow.to_string(),
        "total arena size overflows usize"
    );
    assert_eq!(
        BuildError::InvalidAlignment.to_string(),
        "alignment must be a power of 2"
    );
    assert_eq!(
        BuildError::InvalidGeometry.to_string(),
        "buddy arena geometry must be a power-of-two multiple of min block size"
    );
}

#[test]
fn build_error_display_of_provided_memory() {
    assert_eq!(
        BuildError::SlotSizeExceedsBacking.to_string(),
        "requested slot size exceeds backing memory length"
    );
    assert_eq!(
        BuildError::ZeroUsableSlots.to_string(),
        "no usable slots fit in the provided backing memory"
    );
    assert_eq!(
        BuildError::NullPointer.to_string(),
        "null pointer provided to from_raw"
    );
}

#[test]
fn buffer_full_error_display() {
    let err = BufferFullError {
        remaining: 10,
        requested: 50,
    };
    assert_eq!(
        err.to_string(),
        "buffer full: 50 bytes requested, 10 bytes remaining"
    );
}

#[test]
fn buffer_full_error_display_of_long_numbers() {
    let err = BufferFullError {
        remaining: 0,
        requested: 1234567890,
    };
    assert_eq!(
        err.to_string(),
        "buffer full: 1234567890 bytes requested, 0 bytes remaining"
    );
}
