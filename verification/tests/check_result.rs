use mordle2::check_result::{
    parse_check_result, CheckResult, CheckResultError, Either, ParseCheckResultError,
};

#[test]
fn test_try_from_str() {
    assert_eq!(CheckResult::try_from("-"), Ok(CheckResult::NotInWord));
    assert_eq!(CheckResult::try_from("+"), Ok(CheckResult::ExactPlace));
    assert_eq!(CheckResult::try_from("?"), Ok(CheckResult::InWord));
    assert_eq!(
        CheckResult::try_from("a"),
        Err(CheckResultError("a".to_string()))
    );
}

#[test]
fn test_display() {
    assert_eq!(CheckResult::NotInWord.to_string(), "-");
    assert_eq!(CheckResult::ExactPlace.to_string(), "+");
    assert_eq!(CheckResult::InWord.to_string(), "?");
}

#[test]
fn test_parse_result() {
    assert_eq!(
        parse_check_result("--++?", 5).unwrap(),
        Either::Left(vec![
            CheckResult::NotInWord,
            CheckResult::NotInWord,
            CheckResult::ExactPlace,
            CheckResult::ExactPlace,
            CheckResult::InWord
        ])
    );
}

#[test]
fn test_parse_result_with_word() {
    assert_eq!(
        parse_check_result("a-b-c+d+e?", 5).unwrap(),
        Either::Right(vec![
            (CheckResult::NotInWord, "a"),
            (CheckResult::NotInWord, "b"),
            (CheckResult::ExactPlace, "c"),
            (CheckResult::ExactPlace, "d"),
            (CheckResult::InWord, "e")
        ])
    );
}

#[test]
fn test_failed_parse_result_invalid_char() {
    assert_eq!(
        parse_check_result("a-b-c+d+e.", 5).unwrap_err(),
        ParseCheckResultError::CheckResultError(CheckResultError(".".to_string()))
    );
}

#[test]
fn test_failed_parse_result_invalid_len_with_word() {
    assert_eq!(
        parse_check_result("a-b-c+d+e", 5).unwrap_err(),
        ParseCheckResultError::InvalidStringLength(9)
    );
}

#[test]
fn test_failed_parse_result_invalid_len() {
    assert_eq!(
        parse_check_result("--++??", 5).unwrap_err(),
        ParseCheckResultError::InvalidStringLength(6)
    );
}

#[test]
fn test_failed_parse_result_invalid_str() {
    assert_eq!(
        parse_check_result("s-a+̸t+", 3).unwrap_err(),
        ParseCheckResultError::CheckResultError(CheckResultError("+̸".to_string()))
    );
}

#[test]
fn char_of_each_result() {
    assert_eq!(char::from(CheckResult::NotInWord), '-');
    assert_eq!(char::from(CheckResult::ExactPlace), '+');
    assert_eq!(char::from(CheckResult::InWord), '?');
    assert_eq!(CheckResult::InWord.to_char(), '?');
}

#[test]
fn text_of_result_reads_back() {
    for r in [
        CheckResult::NotInWord,
        CheckResult::ExactPlace,
        CheckResult::InWord,
    ] {
        assert_eq!(CheckResult::try_from(r.to_string().as_str()), Ok(r));
    }
}

#[test]
fn longer_text_is_no_result() {
    assert_eq!(
        CheckResult::try_from("--"),
        Err(CheckResultError("--".to_string()))
    );
    assert_eq!(
        CheckResult::try_from(""),
        Err(CheckResultError("".to_string()))
    );
}

#[test]
fn first_bad_result_is_reported() {
    assert_eq!(
        parse_check_result("-x+y?", 5).unwrap_err(),
        ParseCheckResultError::CheckResultError(CheckResultError("x".to_string()))
    );
}

#[test]
fn combining_marks_stay_with_their_grapheme() {
    // "é" written as e + combining acute is one grapheme
    assert_eq!(
        parse_check_result("e\u{301}+", 1).unwrap(),
        Either::Right(vec![(CheckResult::ExactPlace, "e\u{301}")])
    );
}

#[test]
fn zero_length_word_takes_empty_text() {
    assert_eq!(parse_check_result("", 0).unwrap(), Either::Left(vec![]));
}
