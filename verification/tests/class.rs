use classfile::{
    parse, Attribute, Class, Const, DecodeError, ErrorKind, Field, Interface, Method, MAGIC,
};

fn error(kind: ErrorKind, offset: usize) -> DecodeError {
    DecodeError { kind, offset }
}

fn minimal() -> Vec<u8> {
    vec![
        0xCA, 0xFE, 0xBA, 0xBE, // signature
        0x00, 0x03, // minor version
        0x00, 0x34, // major version
        0x00, 0x01, // pool count: no entry
        0x00, 0x21, // access flags
        0x00, 0x00, // this class
        0x00, 0x00, // super class
        0x00, 0x00, // interfaces
        0x00, 0x00, // fields
        0x00, 0x00, // methods
        0x00, 0x00, // attributes
    ]
}

fn sample() -> Vec<u8> {
    let mut b = vec![0xCA, 0xFE, 0xBA, 0xBE, 0x00, 0x00, 0x00, 0x3D];
    b.extend([0x00, 0x06]); // five entries
    b.extend([0x07, 0x00, 0x02]);
    b.extend([0x01, 0x00, 0x04, b'M', b'a', b'i', b'n']);
    b.extend([0x07, 0x00, 0x04]);
    b.extend([0x01, 0x00, 0x10]);
    b.extend(b"java/lang/Object");
    b.extend([0x03, 0xFF, 0xFF, 0xFF, 0xFF]);
    b.extend([0x00, 0x21, 0x00, 0x01, 0x00, 0x03]); // flags, this, super
    b.extend([0x00, 0x02, 0x00, 0x01, 0x00, 0x03]); // two interfaces
    b.extend([0x00, 0x01]); // one field
    b.extend([0x00, 0x02, 0x00, 0x02, 0x00, 0x04, 0x00, 0x00]);
    b.extend([0x00, 0x01]); // one method
    b.extend([0x00, 0x01, 0x00, 0x02, 0x00, 0x04, 0x00, 0x01]);
    b.extend([0x00, 0x02, 0x00, 0x00, 0x00, 0x03, 0x2A, 0xB7, 0xB1]);
    b.extend([0x00, 0x01]); // one attribute
    b.extend([0x00, 0x04, 0x00, 0x00, 0x00, 0x02, 0x00, 0x05]);
    b
}

fn sample_class() -> Class {
    Class {
        minor_version: 0,
        major_version: 61,
        constant_pool: vec![
            Const::Class { name_index: 2 },
            Const::Utf8("Main".to_string()),
            Const::Class { name_index: 4 },
            Const::Utf8("java/lang/Object".to_string()),
            Const::Integer(0xFFFF_FFFF),
        ],
        access_flags: 0x0021,
        this_class: 1,
        super_class: 3,
        interfaces: vec![Interface { index: 1 }, Interface { index: 3 }],
        fields: vec![Field {
            access_flags: 2,
            name_index: 2,
            descriptor_index: 4,
            attributes: Vec::new(),
        }],
        methods: vec![Method {
            access_flags: 1,
            name_index: 2,
            descriptor_index: 4,
            attributes: vec![Attribute { name_index: 2, info: vec![0x2A, 0xB7, 0xB1] }],
        }],
        attributes: vec![Attribute { name_index: 4, info: vec![0x00, 0x05] }],
    }
}

#[test]
fn the_signature_is_cafebabe() {
    assert_eq!(MAGIC, 0xCAFEBABE);
}

#[test]
fn a_minimal_class_has_four_empty_collections() {
    let class = parse(&minimal()).unwrap();
    assert_eq!(class.minor_version, 3);
    assert_eq!(class.major_version, 52);
    assert_eq!(class.access_flags, 0x0021);
    assert_eq!(class.this_class, 0);
    assert_eq!(class.super_class, 0);
    assert!(class.constant_pool.is_empty());
    assert!(class.interfaces.is_empty());
    assert!(class.fields.is_empty());
    assert!(class.methods.is_empty());
    assert!(class.attributes.is_empty());
}

#[test]
fn a_class_with_every_part() {
    assert_eq!(parse(&sample()), Ok(sample_class()));
}

#[test]
fn bytes_behind_the_last_attribute_are_ignored() {
    let mut b = sample();
    b.extend([0xDE, 0xAD, 0xBE, 0xEF, 0xFF]);
    assert_eq!(parse(&b), Ok(sample_class()));
    let mut b = minimal();
    b.push(0x00);
    assert_eq!(parse(&b), parse(&minimal()));
}

#[test]
fn a_wrong_signature_is_a_bad_magic_number() {
    let mut b = sample();
    b[3] = 0xBF;
    assert_eq!(parse(&b), Err(error(ErrorKind::BadMagicNumber, 0)));
    assert_eq!(
        parse(&vec![0xBE, 0xBA, 0xFE, 0xCA, 0x00, 0x00]),
        Err(error(ErrorKind::BadMagicNumber, 0))
    );
    assert_eq!(parse(&vec![0x00, 0x00, 0x00, 0x00]), Err(error(ErrorKind::BadMagicNumber, 0)));
}

#[test]
fn a_wrong_signature_decides_whatever_follows() {
    for rest in [Vec::new(), vec![0x00], vec![0xFF; 64], minimal()] {
        let mut b = vec![0xCA, 0xFE, 0xBA, 0xBD];
        b.extend(rest);
        assert_eq!(parse(&b), Err(error(ErrorKind::BadMagicNumber, 0)));
    }
}

#[test]
fn a_buffer_shorter_than_the_signature_is_out_of_bounds() {
    assert_eq!(parse(&Vec::new()), Err(error(ErrorKind::OutOfBounds, 0)));
    assert_eq!(parse(&vec![0xCA, 0xFE, 0xBA]), Err(error(ErrorKind::OutOfBounds, 0)));
}

#[test]
fn a_header_cut_by_the_end_is_out_of_bounds() {
    let b = minimal();
    assert_eq!(parse(&b[..4].to_vec()), Err(error(ErrorKind::OutOfBounds, 4)));
    assert_eq!(parse(&b[..7].to_vec()), Err(error(ErrorKind::OutOfBounds, 6)));
    assert_eq!(parse(&b[..9].to_vec()), Err(error(ErrorKind::OutOfBounds, 8)));
    assert_eq!(parse(&b[..10].to_vec()), Err(error(ErrorKind::OutOfBounds, 10)));
    assert_eq!(parse(&b[..13].to_vec()), Err(error(ErrorKind::OutOfBounds, 12)));
    assert_eq!(parse(&b[..15].to_vec()), Err(error(ErrorKind::OutOfBounds, 14)));
    assert_eq!(parse(&b[..17].to_vec()), Err(error(ErrorKind::OutOfBounds, 16)));
    assert_eq!(parse(&b[..19].to_vec()), Err(error(ErrorKind::OutOfBounds, 18)));
    assert_eq!(parse(&b[..21].to_vec()), Err(error(ErrorKind::OutOfBounds, 20)));
    assert_eq!(parse(&b[..23].to_vec()), Err(error(ErrorKind::OutOfBounds, 22)));
}

#[test]
fn a_pool_cut_by_the_end_is_a_truncated_pool() {
    let b = sample();
    assert_eq!(parse(&b[..10].to_vec()), Err(error(ErrorKind::TruncatedPool, 10)));
    assert_eq!(parse(&b[..12].to_vec()), Err(error(ErrorKind::TruncatedPool, 11)));
    assert_eq!(parse(&b[..18].to_vec()), Err(error(ErrorKind::TruncatedPool, 16)));
}

#[test]
fn an_unknown_tag_in_the_pool_fails_the_class() {
    let mut b = sample();
    b[13] = 0xFF;
    assert_eq!(parse(&b), Err(error(ErrorKind::UnknownConstantTag, 13)));
}

#[test]
fn malformed_text_in_the_pool_fails_the_class() {
    let mut b = sample();
    b[16] = 0xFF;
    assert_eq!(parse(&b), Err(error(ErrorKind::InvalidEncoding, 16)));
}

#[test]
fn a_list_cut_by_the_end_is_a_truncated_list() {
    let b = sample();
    let pool_end = 10 + 3 + 7 + 3 + 19 + 5;
    let interfaces = pool_end + 6 + 2;
    assert_eq!(parse(&b[..interfaces + 3].to_vec()), Err(error(ErrorKind::TruncatedList, interfaces + 2)));
    let fields = interfaces + 4 + 2;
    assert_eq!(parse(&b[..fields + 5].to_vec()), Err(error(ErrorKind::TruncatedList, fields + 4)));
    let methods = fields + 8 + 2;
    assert_eq!(parse(&b[..methods + 16].to_vec()), Err(error(ErrorKind::TruncatedList, methods + 14)));
    let attributes = methods + 17 + 2;
    assert_eq!(
        parse(&b[..attributes + 7].to_vec()),
        Err(error(ErrorKind::TruncatedList, attributes + 6))
    );
    assert_eq!(attributes + 8, b.len());
}

#[test]
fn every_proper_prefix_of_a_class_fails_inside_itself() {
    let b = sample();
    for len in 0..b.len() {
        match parse(&b[..len].to_vec()) {
            Ok(class) => panic!("a prefix of {} bytes decoded to {:?}", len, class),
            Err(e) => {
                assert!(e.offset <= len, "offset {} in {} bytes", e.offset, len);
                assert_ne!(e.kind, ErrorKind::BadMagicNumber);
                assert_ne!(e.kind, ErrorKind::UnknownConstantTag);
            }
        }
    }
}

#[test]
fn decoding_twice_gives_the_same() {
    let b = sample();
    assert_eq!(parse(&b), parse(&b.clone()));
    let mut broken = sample();
    broken.truncate(40);
    assert_eq!(parse(&broken), parse(&broken.clone()));
}

#[test]
fn a_pool_count_of_zero_is_an_empty_pool() {
    let mut b = minimal();
    b[9] = 0x00;
    let class = parse(&b).unwrap();
    assert!(class.constant_pool.is_empty());
    assert_eq!(class.access_flags, 0x0021);
}
