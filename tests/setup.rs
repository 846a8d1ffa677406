use mux_stream::{check_tags, SetupError};

#[test]
fn test() {
    // Multiplexer declarations: any non-empty set of distinct known tags.
    assert_eq!(check_tags(&vec![0, 1, 2], 3, true), Ok(()));
    assert_eq!(check_tags(&vec![2, 0], 3, true), Ok(()));
    assert_eq!(check_tags(&vec![], 3, true), Err(SetupError::NoTags));

    // Demultiplexer declarations: every variant needs a tag unless the rest
    // is discarded.
    assert_eq!(check_tags(&vec![0, 1, 2], 3, false), Ok(()));
    assert_eq!(check_tags(&vec![0, 2], 3, true), Ok(()));
    assert_eq!(check_tags(&vec![], 3, false), Err(SetupError::NoTags));
    assert_eq!(check_tags(&vec![0, 1], 3, false), Err(SetupError::NonExhaustive(2)));
    assert_eq!(check_tags(&vec![0, 2], 3, false), Err(SetupError::NonExhaustive(1)));
}

#[test]
fn check_tags_reports_first_problem() {
    assert_eq!(check_tags(&vec![5, 5, 4], 3, false), Err(SetupError::UnknownTag(5)));
    assert_eq!(check_tags(&vec![0, 1, 1, 0], 3, false), Err(SetupError::DuplicateTag(1)));
    assert_eq!(check_tags(&vec![1, 0, 1, 4], 3, false), Err(SetupError::UnknownTag(4)));
    assert_eq!(check_tags(&vec![2], 3, false), Err(SetupError::NonExhaustive(0)));
    assert_eq!(check_tags(&vec![0], 0, true), Err(SetupError::UnknownTag(0)));
    assert_eq!(check_tags(&vec![3, 1, 0, 2], 4, false), Ok(()));
}
