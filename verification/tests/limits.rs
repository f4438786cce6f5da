use mapreduce::error::SumError;
use mapreduce::map_reduce::digit_sum;

#[test]
fn digit_sum_does_not_wrap() {
    let mut chunk = "9".repeat(477_218_588);
    chunk.push('4');
    assert_eq!(digit_sum(&chunk, 0), Err(SumError::Overflow));
}

#[test]
fn digit_sum_reaches_the_largest_sum() {
    let mut chunk = "9".repeat(477_218_588);
    chunk.push('3');
    assert_eq!(digit_sum(&chunk, 0), Ok(u32::MAX));
}

#[test]
fn digit_sum_fails_with_what_comes_first() {
    let mut chunk = "9".repeat(477_218_588);
    chunk.push_str("4x");
    assert_eq!(digit_sum(&chunk, 0), Err(SumError::Overflow));
    let mut chunk = "9".repeat(477_218_588);
    chunk.push_str("x4");
    assert_eq!(
        digit_sum(&chunk, 0),
        Err(SumError::InvalidCharacter { segment: 0, character: 'x' })
    );
}
