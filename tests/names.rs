use kola::ast::{decode_span, names_of_spans};
use kola::error::AnalysisError;

#[test]
fn spans_decode_to_names() {
    let src = "fun ünï() {}".as_bytes().to_vec();
    assert_eq!(decode_span(&src, (4, 9)).unwrap(), "ünï");
    let a = names_of_spans(&src, &vec![(0, 3), (4, 9)]).unwrap();
    let names: Vec<String> = a.names();
    assert_eq!(names, vec!["fun", "ünï"]);
    let b = a.duplicate();
    assert!(a.same_names(&b));
    assert!(!a.same_names(&names_of_spans(&src, &vec![(0, 3)]).unwrap()));
}

#[test]
fn bad_spans_are_internal_errors() {
    let src = "fun é() {}".as_bytes().to_vec();
    assert_eq!(decode_span(&src, (4, 5)), Err(AnalysisError::InternalError));
    assert_eq!(decode_span(&src, (3, 2)), Err(AnalysisError::InternalError));
    assert_eq!(decode_span(&src, (0, 99)), Err(AnalysisError::InternalError));
    assert_eq!(names_of_spans(&src, &vec![(0, 3), (0, 99)]).err(), Some(AnalysisError::InternalError));
    assert_eq!(names_of_spans(&src, &vec![]).unwrap().names(), Vec::<String>::new());
}
