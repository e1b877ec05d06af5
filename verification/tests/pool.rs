use classfile::{consume_constant_pool, Const, DecodeError, ErrorKind, PoolError};

fn failure(kind: ErrorKind, offset: usize, decoded: Vec<Const>) -> PoolError {
    PoolError { error: DecodeError { kind, offset }, decoded }
}

fn three_entries() -> Vec<u8> {
    vec![
        0x07, 0x00, 0x02, // Class 2
        0x01, 0x00, 0x03, b'F', b'o', b'o', // Utf8 "Foo"
        0x03, 0x00, 0x00, 0x00, 0x2A, // Integer 42
    ]
}

fn decoded_three() -> Vec<Const> {
    vec![Const::Class { name_index: 2 }, Const::Utf8("Foo".to_string()), Const::Integer(42)]
}

#[test]
fn a_count_of_n_gives_n_minus_one_entries() {
    let b = three_entries();
    assert_eq!(consume_constant_pool(&b, 4, 0), Ok((decoded_three(), 14)));
    assert_eq!(consume_constant_pool(&b, 3, 0), Ok((decoded_three()[..2].to_vec(), 9)));
    assert_eq!(consume_constant_pool(&b, 2, 0), Ok((decoded_three()[..1].to_vec(), 3)));
}

#[test]
fn a_count_of_one_is_an_empty_pool() {
    let b = three_entries();
    assert_eq!(consume_constant_pool(&b, 1, 0), Ok((Vec::new(), 0)));
    assert_eq!(consume_constant_pool(&b, 1, 5), Ok((Vec::new(), 5)));
    assert_eq!(consume_constant_pool(&Vec::new(), 1, 0), Ok((Vec::new(), 0)));
}

#[test]
fn a_count_of_zero_is_an_empty_pool() {
    let b = three_entries();
    assert_eq!(consume_constant_pool(&b, 0, 0), Ok((Vec::new(), 0)));
}

#[test]
fn a_pool_that_starts_inside_the_buffer() {
    let mut b = vec![0xAA, 0xBB];
    b.extend(three_entries());
    assert_eq!(consume_constant_pool(&b, 4, 2), Ok((decoded_three(), 16)));
}

#[test]
fn a_buffer_with_fewer_entries_is_a_truncated_pool() {
    let b = three_entries();
    assert_eq!(
        consume_constant_pool(&b, 5, 0),
        Err(failure(ErrorKind::TruncatedPool, 14, decoded_three()))
    );
    assert_eq!(
        consume_constant_pool(&b, 100, 0),
        Err(failure(ErrorKind::TruncatedPool, 14, decoded_three()))
    );
    assert_eq!(
        consume_constant_pool(&Vec::new(), 2, 0),
        Err(failure(ErrorKind::TruncatedPool, 0, Vec::new()))
    );
}

#[test]
fn an_entry_cut_by_the_end_is_a_truncated_pool() {
    let mut b = three_entries();
    b.truncate(12);
    assert_eq!(
        consume_constant_pool(&b, 4, 0),
        Err(failure(ErrorKind::TruncatedPool, 10, decoded_three()[..2].to_vec()))
    );
    b.truncate(7);
    assert_eq!(
        consume_constant_pool(&b, 4, 0),
        Err(failure(ErrorKind::TruncatedPool, 6, decoded_three()[..1].to_vec()))
    );
    b.truncate(5);
    assert_eq!(
        consume_constant_pool(&b, 4, 0),
        Err(failure(ErrorKind::TruncatedPool, 4, decoded_three()[..1].to_vec()))
    );
}

#[test]
fn an_unknown_tag_keeps_the_entries_before_it() {
    let mut b = three_entries();
    b.push(0xFF);
    b.extend([0x00, 0x01]);
    assert_eq!(
        consume_constant_pool(&b, 5, 0),
        Err(failure(ErrorKind::UnknownConstantTag, 14, decoded_three()))
    );
}

#[test]
fn an_unknown_tag_in_front_leaves_an_empty_pool() {
    let b = vec![0xFF, 0x07, 0x00, 0x02];
    assert_eq!(
        consume_constant_pool(&b, 3, 0),
        Err(failure(ErrorKind::UnknownConstantTag, 0, Vec::new()))
    );
}

#[test]
fn malformed_text_keeps_the_entries_before_it() {
    let b = vec![0x08, 0x00, 0x01, 0x01, 0x00, 0x01, 0xFF, 0x07, 0x00, 0x01];
    assert_eq!(
        consume_constant_pool(&b, 4, 0),
        Err(failure(ErrorKind::InvalidEncoding, 6, vec![Const::String { string_index: 1 }]))
    );
}

#[test]
fn a_long_takes_one_place_in_the_pool() {
    let b = vec![
        0x05, 0, 0, 0, 0, 0, 0, 0, 1, // Long 1
        0x06, 0x3F, 0xF0, 0, 0, 0, 0, 0, 0, // Double 1.0
        0x04, 0x3F, 0x80, 0, 0, // Float 1.0
    ];
    assert_eq!(
        consume_constant_pool(&b, 4, 0),
        Ok((
            vec![
                Const::Long(1),
                Const::Double(1.0f64.to_bits()),
                Const::Float(1.0f32.to_bits())
            ],
            23
        ))
    );
}

#[test]
fn every_kind_of_entry_in_one_pool() {
    let b = vec![
        7, 0, 1, //
        9, 0, 2, 0, 3, //
        10, 0, 4, 0, 5, //
        11, 0, 6, 0, 7, //
        8, 0, 8, //
        3, 0, 0, 0, 9, //
        4, 0, 0, 0, 10, //
        5, 0, 0, 0, 0, 0, 0, 0, 11, //
        6, 0, 0, 0, 0, 0, 0, 0, 12, //
        12, 0, 13, 0, 14, //
        1, 0, 2, b'o', b'k', //
        15, 9, 0, 15, //
        16, 0, 16, //
        18, 0, 17, 0, 18,
    ];
    let expected = vec![
        Const::Class { name_index: 1 },
        Const::Fieldref { class_index: 2, nameandtype_index: 3 },
        Const::Methodref { class_index: 4, nameandtype_index: 5 },
        Const::InterfaceMethodref { class_index: 6, nameandtype_index: 7 },
        Const::String { string_index: 8 },
        Const::Integer(9),
        Const::Float(10),
        Const::Long(11),
        Const::Double(12),
        Const::NameAndType { name_index: 13, descriptor_index: 14 },
        Const::Utf8("ok".to_string()),
        Const::MethodHandle { reference_kind: 9, reference_index: 15 },
        Const::MethodType { descriptor_index: 16 },
        Const::InvokeDynamic { bootstrap_method_attr_index: 17, name_and_type_index: 18 },
    ];
    assert_eq!(consume_constant_pool(&b, 15, 0), Ok((expected, b.len())));
}
