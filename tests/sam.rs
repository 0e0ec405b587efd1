use noodles::sam::{
    get_reference_sequence_name, has_valid_reference_sequence_names, is_valid_name,
    write_record, ReferenceSequenceError, WriteError,
};

fn fields(values: &[&str]) -> Vec<Vec<u8>> {
    values.iter().map(|v| v.as_bytes().to_vec()).collect()
}

const DEFAULT_FIELDS: [&str; 11] = ["*", "4", "*", "0", "255", "*", "*", "0", "0", "*", "*"];

#[test]
fn test_write_record_with_data() {
    let mut buf = Vec::new();
    let names: Vec<String> = Vec::new();
    write_record(&mut buf, &names, &fields(&DEFAULT_FIELDS), &fields(&["RG:Z:rg0"])).unwrap();
    let expected = b"*\t4\t*\t0\t255\t*\t*\t0\t0\t*\t*\tRG:Z:rg0\n";
    assert_eq!(buf, expected);
}

#[test]
fn write_record_without_data() {
    let mut buf = Vec::new();
    let names = vec![String::from("sq0")];
    write_record(&mut buf, &names, &fields(&DEFAULT_FIELDS), &Vec::new()).unwrap();
    assert_eq!(buf, b"*\t4\t*\t0\t255\t*\t*\t0\t0\t*\t*\n".to_vec());
}

#[test]
fn write_record_refuses_invalid_names_and_fields() {
    let mut buf = Vec::new();
    let names = vec![String::from("sq0"), String::from("=bad")];
    assert_eq!(
        write_record(&mut buf, &names, &fields(&DEFAULT_FIELDS), &Vec::new()),
        Err(WriteError::InvalidReferenceSequenceNames)
    );
    assert_eq!(
        write_record(&mut buf, &Vec::new(), &fields(&["*"]), &Vec::new()),
        Err(WriteError::InvalidFieldCount)
    );
    assert!(buf.is_empty());
}

#[test]
fn valid_names() {
    assert!(is_valid_name("sq0"));
    assert!(is_valid_name("chr1:100-200"));
    assert!(is_valid_name("a*="));
}

#[test]
fn invalid_names() {
    assert!(!is_valid_name(""));
    assert!(!is_valid_name("*sq0"));
    assert!(!is_valid_name("=sq0"));
    assert!(!is_valid_name("sq 0"));
    assert!(!is_valid_name("sq(0)"));
    assert!(!is_valid_name("sq\u{e9}"));
}

#[test]
fn all_header_names_must_be_valid() {
    assert!(has_valid_reference_sequence_names(&vec![]));
    assert!(has_valid_reference_sequence_names(&vec![String::from("sq0"), String::from("sq1")]));
    assert!(!has_valid_reference_sequence_names(&vec![String::from("sq0"), String::from("*")]));
}

#[test]
fn reference_sequence_names_by_id() {
    let names = vec![String::from("sq0"), String::from("sq1"), String::from("*bad")];
    assert_eq!(get_reference_sequence_name(&names, None), Ok(None));
    assert_eq!(get_reference_sequence_name(&names, Some(1)), Ok(Some(String::from("sq1"))));
    assert_eq!(
        get_reference_sequence_name(&names, Some(3)),
        Err(ReferenceSequenceError::InvalidReferenceSequenceId)
    );
    assert_eq!(
        get_reference_sequence_name(&names, Some(-1)),
        Err(ReferenceSequenceError::InvalidReferenceSequenceId)
    );
    assert_eq!(
        get_reference_sequence_name(&names, Some(2)),
        Err(ReferenceSequenceError::InvalidReferenceSequenceId)
    );
}
