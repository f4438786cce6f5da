use mapreduce::chunker::split_chunks;
use mapreduce::error::SumError;
use mapreduce::map_reduce::{digit_sum, reduce};
use mapreduce::pipeline::sum_digits;

fn invalid(segment: usize, character: char) -> SumError {
    SumError::InvalidCharacter { segment, character }
}

#[test]
fn digit_sum_adds_the_digits() {
    assert_eq!(digit_sum("123", 0), Ok(6));
    assert_eq!(digit_sum("456", 1), Ok(15));
    assert_eq!(digit_sum("000", 0), Ok(0));
    assert_eq!(digit_sum("999", 1), Ok(27));
    assert_eq!(digit_sum("7", 0), Ok(7));
    assert_eq!(digit_sum("0123456789", 5), Ok(45));
    assert_eq!(digit_sum("86967897737416471853297327050364959", 0), Ok(187));
}

#[test]
fn digit_sum_of_nothing_is_zero() {
    assert_eq!(digit_sum("", 0), Ok(0));
}

#[test]
fn digit_sum_fails_at_the_first_other_character() {
    assert_eq!(digit_sum("12a", 0), Err(invalid(0, 'a')));
    assert_eq!(digit_sum("a12", 4), Err(invalid(4, 'a')));
    assert_eq!(digit_sum("1x2y3", 2), Err(invalid(2, 'x')));
    assert_eq!(digit_sum("-1", 0), Err(invalid(0, '-')));
    assert_eq!(digit_sum("1.5", 0), Err(invalid(0, '.')));
    assert_eq!(digit_sum("1 2", 9), Err(invalid(9, ' ')));
    assert_eq!(digit_sum("12\u{0663}", 1), Err(invalid(1, '\u{0663}')));
    assert_eq!(digit_sum("ff", 0), Err(invalid(0, 'f')));
}

#[test]
fn digit_sum_names_the_segment_it_was_given() {
    assert_eq!(digit_sum("x", 0), Err(invalid(0, 'x')));
    assert_eq!(digit_sum("x", 17), Err(invalid(17, 'x')));
    assert_eq!(digit_sum("x", usize::MAX), Err(invalid(usize::MAX, 'x')));
}

#[test]
fn map_keeps_the_order_of_the_chunks() {
    let chunks = vec!["1".to_string(), "x".to_string(), "22".to_string(), "3y".to_string()];
    let partials = mapreduce::map_reduce::map(chunks);
    assert_eq!(partials, vec![Ok(1), Err(invalid(1, 'x')), Ok(4), Err(invalid(3, 'y'))]);
}

#[test]
fn map_of_no_chunks_is_empty() {
    assert_eq!(mapreduce::map_reduce::map(Vec::new()), Vec::new());
}

#[test]
fn map_gives_one_result_for_each_chunk() {
    let chunks: Vec<String> = (0..100).map(|i| i.to_string()).collect();
    let partials = mapreduce::map_reduce::map(chunks.clone());
    assert_eq!(partials.len(), chunks.len());
    for (i, chunk) in chunks.iter().enumerate() {
        assert_eq!(partials[i], digit_sum(chunk, i));
    }
}

#[test]
fn reduce_adds_the_partial_sums() {
    assert_eq!(reduce(vec![Ok(6), Ok(15)]), Ok(21));
    assert_eq!(reduce(vec![Ok(0), Ok(27)]), Ok(27));
    assert_eq!(reduce(vec![Ok(7)]), Ok(7));
    assert_eq!(reduce(vec![Ok(1), Ok(2), Ok(3), Ok(4)]), Ok(10));
}

#[test]
fn reduce_of_nothing_is_zero() {
    assert_eq!(reduce(Vec::new()), Ok(0));
}

#[test]
fn reduce_hands_on_the_first_failure() {
    assert_eq!(reduce(vec![Ok(1), Err(invalid(1, 'x')), Ok(4)]), Err(invalid(1, 'x')));
    assert_eq!(
        reduce(vec![Ok(1), Err(invalid(1, 'x')), Err(invalid(2, 'y'))]),
        Err(invalid(1, 'x'))
    );
    assert_eq!(reduce(vec![Err(invalid(0, 'a'))]), Err(invalid(0, 'a')));
    assert_eq!(reduce(vec![Ok(3), Err(SumError::Overflow)]), Err(SumError::Overflow));
}

#[test]
fn reduce_does_not_wrap() {
    assert_eq!(reduce(vec![Ok(u32::MAX), Ok(0)]), Ok(u32::MAX));
    assert_eq!(reduce(vec![Ok(u32::MAX - 1), Ok(1)]), Ok(u32::MAX));
    assert_eq!(reduce(vec![Ok(u32::MAX), Ok(1)]), Err(SumError::Overflow));
    assert_eq!(reduce(vec![Ok(u32::MAX), Ok(u32::MAX)]), Err(SumError::Overflow));
    assert_eq!(reduce(vec![Ok(1 << 31), Ok(1 << 31)]), Err(SumError::Overflow));
}

#[test]
fn reduce_fails_with_what_comes_first() {
    assert_eq!(
        reduce(vec![Ok(u32::MAX), Ok(1), Err(invalid(2, 'x'))]),
        Err(SumError::Overflow)
    );
    assert_eq!(
        reduce(vec![Ok(u32::MAX), Err(invalid(1, 'x')), Ok(1)]),
        Err(invalid(1, 'x'))
    );
}

#[test]
fn reduce_does_not_depend_on_the_order_of_the_sums() {
    let orders: [[u32; 4]; 6] = [
        [6, 15, 0, 27],
        [27, 0, 15, 6],
        [15, 6, 27, 0],
        [0, 27, 6, 15],
        [6, 0, 27, 15],
        [27, 15, 6, 0],
    ];
    for order in orders {
        let partials: Vec<Result<u32, SumError>> = order.iter().map(|sum| Ok(*sum)).collect();
        assert_eq!(reduce(partials), Ok(48));
    }
}

#[test]
fn reduce_overflows_in_any_order() {
    let orders: [[u32; 3]; 6] = [
        [u32::MAX, 1, 2],
        [u32::MAX, 2, 1],
        [1, u32::MAX, 2],
        [2, u32::MAX, 1],
        [1, 2, u32::MAX],
        [2, 1, u32::MAX],
    ];
    for order in orders {
        let partials: Vec<Result<u32, SumError>> = order.iter().map(|sum| Ok(*sum)).collect();
        assert_eq!(reduce(partials), Err(SumError::Overflow));
    }
}

#[test]
fn sum_is_the_sum_of_all_digits() {
    let text = "86967897737416471853297327050364959\n\
                11861322575564723963297542624962850\n\
                70856234701860851907960690014725639\n\
                38397966707106094172783238747669219\n\
                52380795257888236525459303330302837\n\
                58495327135744041048897885734297812\n\
                69920216438980873548808413720956532\n\
                16278424637452589860345374828574668";
    let expected: u32 = text.chars().filter_map(|c| c.to_digit(10)).sum();
    assert_eq!(sum_digits(text), Ok(expected));
    assert_eq!(sum_digits(text), Ok(1342));
    let partials = mapreduce::map_reduce::map(split_chunks(text));
    assert_eq!(
        partials,
        vec![Ok(187), Ok(157), Ok(154), Ok(177), Ok(153), Ok(172), Ok(165), Ok(177)]
    );
    assert_eq!(reduce(partials), Ok(1342));
}

#[test]
fn sum_does_not_depend_on_where_the_text_is_cut() {
    assert_eq!(sum_digits("123456"), Ok(21));
    assert_eq!(sum_digits("1 2 3 4 5 6"), Ok(21));
    assert_eq!(sum_digits("12\n34\t56"), Ok(21));
    assert_eq!(sum_digits("  123456  "), Ok(21));
}

#[test]
fn sum_names_the_chunk_and_the_character() {
    assert_eq!(sum_digits("12a 34"), Err(invalid(0, 'a')));
    assert_eq!(sum_digits("12 3b4"), Err(invalid(1, 'b')));
    assert_eq!(sum_digits("1 2 3 x"), Err(invalid(3, 'x')));
    assert_eq!(sum_digits("  1\n\n2y z"), Err(invalid(1, 'y')));
    assert_eq!(sum_digits("-5"), Err(invalid(0, '-')));
}

#[test]
fn sum_is_the_same_when_run_again() {
    for text in ["123 456", "000 999", "12a 34", "7", "   \n\t ", ""] {
        assert_eq!(sum_digits(text), sum_digits(text));
    }
}
