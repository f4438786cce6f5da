use mapreduce::error::SumError;
use mapreduce::pipeline::sum_digits;

#[test]
fn message_names_the_character_and_the_segment() {
    let error = SumError::InvalidCharacter { segment: 0, character: 'a' };
    assert_eq!(error.message(), "cannot compute sum: invalid character `a` in input segment 0");
    let error = SumError::InvalidCharacter { segment: 1234, character: '\u{E9}' };
    assert_eq!(
        error.message(),
        "cannot compute sum: invalid character `\u{E9}` in input segment 1234"
    );
}

#[test]
fn message_writes_the_segment_as_std_does() {
    for segment in [0usize, 7, 10, 99, 100, 65535, usize::MAX] {
        let error = SumError::InvalidCharacter { segment, character: '-' };
        assert_eq!(
            error.message(),
            format!("cannot compute sum: invalid character `-` in input segment {}", segment)
        );
    }
}

#[test]
fn message_of_the_overflow() {
    assert_eq!(
        SumError::Overflow.message(),
        "cannot compute sum: the total does not fit in 32 bits"
    );
}

#[test]
fn message_of_a_failed_sum() {
    match sum_digits("12a 34") {
        Ok(sum) => panic!("summed to {}", sum),
        Err(error) => assert_eq!(
            error.message(),
            "cannot compute sum: invalid character `a` in input segment 0"
        ),
    }
}

#[test]
fn errors_compare_by_their_fields() {
    let error = SumError::InvalidCharacter { segment: 2, character: 'x' };
    assert_eq!(error, SumError::InvalidCharacter { segment: 2, character: 'x' });
    assert_ne!(error, SumError::InvalidCharacter { segment: 3, character: 'x' });
    assert_ne!(error, SumError::InvalidCharacter { segment: 2, character: 'y' });
    assert_ne!(error, SumError::Overflow);
    let copy = error;
    assert_eq!(copy, error);
}
