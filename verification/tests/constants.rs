use classfile::constant::{
    consume_class_constant, consume_double_constant, consume_fieldref_constant,
    consume_float_constant, consume_integer_constant, consume_interfacemethodref_constant,
    consume_invokedynamic_constant, consume_long_constant, consume_methodhandle_constant,
    consume_methodref_constant, consume_methodtype_constant, consume_nameandtype_constant,
    consume_string_constant, consume_utf8_constant,
};
use classfile::{consume_entry, Const, ConstType, DecodeError, ErrorKind};

fn error(kind: ErrorKind, offset: usize) -> DecodeError {
    DecodeError { kind, offset }
}

#[test]
fn utf8_hello_advances_by_seven() {
    let b = vec![0x00, 0x05, b'H', b'e', b'l', b'l', b'o'];
    assert_eq!(consume_utf8_constant(&b, 0), Ok((Const::Utf8("Hello".to_string()), 7)));
}

#[test]
fn utf8_entry_behind_its_tag() {
    let b = vec![0x01, 0x00, 0x05, b'H', b'e', b'l', b'l', b'o', 0x99];
    assert_eq!(consume_entry(&b, 0), Ok((Const::Utf8("Hello".to_string()), 8)));
}

#[test]
fn integer_forty_two() {
    let b = vec![0x00, 0x00, 0x00, 0x2A];
    assert_eq!(consume_integer_constant(&b, 0), Ok((Const::Integer(42), 4)));
}

#[test]
fn integer_keeps_the_bits_of_a_negative_number() {
    let b = vec![0xFF, 0xFF, 0xFF, 0xFE];
    let (entry, next) = consume_integer_constant(&b, 0).unwrap();
    assert_eq!(next, 4);
    match entry {
        Const::Integer(bits) => assert_eq!(bits as i32, -2),
        other => panic!("not an integer: {:?}", other),
    }
}

#[test]
fn float_is_a_float_with_the_bits_of_the_number() {
    let b = 1.5f32.to_bits().to_be_bytes().to_vec();
    let (entry, next) = consume_float_constant(&b, 0).unwrap();
    assert_eq!(next, 4);
    assert_eq!(entry, Const::Float(0x3FC0_0000));
    match entry {
        Const::Float(bits) => assert_eq!(f32::from_bits(bits), 1.5f32),
        other => panic!("not a float: {:?}", other),
    }
}

#[test]
fn long_reads_eight_bytes() {
    let b = vec![0x00, 0x00, 0x00, 0x01, 0x00, 0x00, 0x00, 0x02];
    assert_eq!(consume_long_constant(&b, 0), Ok((Const::Long(0x0000_0001_0000_0002), 8)));
}

#[test]
fn double_has_the_bits_of_the_number() {
    let b = (-2.25f64).to_bits().to_be_bytes().to_vec();
    let (entry, next) = consume_double_constant(&b, 0).unwrap();
    assert_eq!(next, 8);
    match entry {
        Const::Double(bits) => assert_eq!(f64::from_bits(bits), -2.25f64),
        other => panic!("not a double: {:?}", other),
    }
}

#[test]
fn single_index_entries() {
    let b = vec![0x01, 0x02];
    assert_eq!(consume_class_constant(&b, 0), Ok((Const::Class { name_index: 0x0102 }, 2)));
    assert_eq!(consume_string_constant(&b, 0), Ok((Const::String { string_index: 0x0102 }, 2)));
    assert_eq!(
        consume_methodtype_constant(&b, 0),
        Ok((Const::MethodType { descriptor_index: 0x0102 }, 2))
    );
}

#[test]
fn index_pair_entries() {
    let b = vec![0xAA, 0x00, 0x01, 0x00, 0x02];
    assert_eq!(
        consume_fieldref_constant(&b, 1),
        Ok((Const::Fieldref { class_index: 1, nameandtype_index: 2 }, 5))
    );
    assert_eq!(
        consume_methodref_constant(&b, 1),
        Ok((Const::Methodref { class_index: 1, nameandtype_index: 2 }, 5))
    );
    assert_eq!(
        consume_interfacemethodref_constant(&b, 1),
        Ok((Const::InterfaceMethodref { class_index: 1, nameandtype_index: 2 }, 5))
    );
    assert_eq!(
        consume_nameandtype_constant(&b, 1),
        Ok((Const::NameAndType { name_index: 1, descriptor_index: 2 }, 5))
    );
    assert_eq!(
        consume_invokedynamic_constant(&b, 1),
        Ok((Const::InvokeDynamic { bootstrap_method_attr_index: 1, name_and_type_index: 2 }, 5))
    );
}

#[test]
fn method_handle_is_one_byte_and_an_index() {
    let b = vec![0x06, 0x01, 0x23];
    assert_eq!(
        consume_methodhandle_constant(&b, 0),
        Ok((Const::MethodHandle { reference_kind: 6, reference_index: 0x0123 }, 3))
    );
    assert_eq!(
        consume_methodhandle_constant(&b, 1),
        Err(error(ErrorKind::OutOfBounds, 2))
    );
}

#[test]
fn a_pair_cut_in_its_second_index_fails_there() {
    let b = vec![0x00, 0x01, 0x00];
    assert_eq!(consume_fieldref_constant(&b, 0), Err(error(ErrorKind::OutOfBounds, 2)));
    assert_eq!(consume_fieldref_constant(&b, 2), Err(error(ErrorKind::OutOfBounds, 2)));
}

#[test]
fn empty_text_advances_by_two() {
    let b = vec![0x00, 0x00, 0x41];
    assert_eq!(consume_utf8_constant(&b, 0), Ok((Const::Utf8(String::new()), 2)));
}

#[test]
fn text_of_several_bytes_a_character() {
    let text = "h\u{e9}llo \u{4e16}\u{754c} \u{1f600}";
    let mut b = vec![0x00, text.len() as u8];
    b.extend_from_slice(text.as_bytes());
    assert_eq!(text.len(), 18);
    assert_eq!(consume_utf8_constant(&b, 0), Ok((Const::Utf8(text.to_string()), 20)));
    match consume_utf8_constant(&b, 0) {
        Ok((Const::Utf8(decoded), _)) => assert_eq!(decoded.chars().count(), 10),
        other => panic!("not text: {:?}", other),
    }
}

#[test]
fn text_that_is_not_utf8_is_an_invalid_encoding() {
    let b = vec![0x00, 0x02, 0xC3, 0x28];
    assert_eq!(consume_utf8_constant(&b, 0), Err(error(ErrorKind::InvalidEncoding, 2)));
    let lone_continuation = vec![0x07, 0x00, 0x01, 0x80];
    assert_eq!(
        consume_utf8_constant(&lone_continuation, 1),
        Err(error(ErrorKind::InvalidEncoding, 3))
    );
}

#[test]
fn the_two_byte_null_of_modified_utf8_is_rejected() {
    let b = vec![0x00, 0x02, 0xC0, 0x80];
    assert_eq!(consume_utf8_constant(&b, 0), Err(error(ErrorKind::InvalidEncoding, 2)));
}

#[test]
fn an_encoded_surrogate_is_rejected() {
    let b = vec![0x00, 0x03, 0xED, 0xA0, 0x80];
    assert_eq!(consume_utf8_constant(&b, 0), Err(error(ErrorKind::InvalidEncoding, 2)));
}

#[test]
fn text_longer_than_the_buffer_is_out_of_bounds() {
    let b = vec![0x00, 0x05, b'H', b'e', b'l', b'l'];
    assert_eq!(consume_utf8_constant(&b, 0), Err(error(ErrorKind::OutOfBounds, 2)));
    let no_length = vec![0x00];
    assert_eq!(consume_utf8_constant(&no_length, 0), Err(error(ErrorKind::OutOfBounds, 0)));
}

#[test]
fn text_cut_inside_a_character_is_an_invalid_encoding() {
    let b = vec![0x00, 0x01, 0xC3, 0xA9];
    assert_eq!(consume_utf8_constant(&b, 0), Err(error(ErrorKind::InvalidEncoding, 2)));
}

#[test]
fn every_byte_names_its_kind_or_none() {
    let known = [
        (1u8, ConstType::Utf8),
        (3, ConstType::Integer),
        (4, ConstType::Float),
        (5, ConstType::Long),
        (6, ConstType::Double),
        (7, ConstType::Class),
        (8, ConstType::String),
        (9, ConstType::Fieldref),
        (10, ConstType::Methodref),
        (11, ConstType::InterfaceMethodref),
        (12, ConstType::NameAndType),
        (15, ConstType::MethodHandle),
        (16, ConstType::MethodType),
        (18, ConstType::InvokeDynamic),
    ];
    for tag in 0..=255u8 {
        let expected = known.iter().find(|(t, _)| *t == tag).map(|(_, kind)| *kind);
        assert_eq!(ConstType::from_tag(tag), expected, "tag {}", tag);
    }
    for (tag, kind) in known {
        assert_eq!(kind.tag(), tag);
    }
}

#[test]
fn consume_constant_dispatches_on_the_kind() {
    let b = vec![0x00, 0x03, 0x00, 0x04, 0x00, 0x05, 0x00, 0x06];
    assert_eq!(
        ConstType::Class.consume_constant(&b, 0),
        Ok((Const::Class { name_index: 3 }, 2))
    );
    assert_eq!(
        ConstType::Fieldref.consume_constant(&b, 0),
        Ok((Const::Fieldref { class_index: 3, nameandtype_index: 4 }, 4))
    );
    assert_eq!(
        ConstType::Methodref.consume_constant(&b, 2),
        Ok((Const::Methodref { class_index: 4, nameandtype_index: 5 }, 6))
    );
    assert_eq!(
        ConstType::InterfaceMethodref.consume_constant(&b, 4),
        Ok((Const::InterfaceMethodref { class_index: 5, nameandtype_index: 6 }, 8))
    );
    assert_eq!(
        ConstType::String.consume_constant(&b, 6),
        Ok((Const::String { string_index: 6 }, 8))
    );
    assert_eq!(ConstType::Integer.consume_constant(&b, 0), Ok((Const::Integer(0x0003_0004), 4)));
    assert_eq!(ConstType::Float.consume_constant(&b, 0), Ok((Const::Float(0x0003_0004), 4)));
    assert_eq!(
        ConstType::Long.consume_constant(&b, 0),
        Ok((Const::Long(0x0003_0004_0005_0006), 8))
    );
    assert_eq!(
        ConstType::Double.consume_constant(&b, 0),
        Ok((Const::Double(0x0003_0004_0005_0006), 8))
    );
    assert_eq!(
        ConstType::NameAndType.consume_constant(&b, 0),
        Ok((Const::NameAndType { name_index: 3, descriptor_index: 4 }, 4))
    );
    assert_eq!(
        ConstType::Utf8.consume_constant(&b, 0),
        Ok((Const::Utf8("\0\u{4}\0".to_string()), 5))
    );
    assert_eq!(
        ConstType::MethodHandle.consume_constant(&b, 1),
        Ok((Const::MethodHandle { reference_kind: 3, reference_index: 4 }, 4))
    );
    assert_eq!(
        ConstType::MethodType.consume_constant(&b, 0),
        Ok((Const::MethodType { descriptor_index: 3 }, 2))
    );
    assert_eq!(
        ConstType::InvokeDynamic.consume_constant(&b, 0),
        Ok((Const::InvokeDynamic { bootstrap_method_attr_index: 3, name_and_type_index: 4 }, 4))
    );
}

#[test]
fn an_entry_with_an_unknown_tag_fails_at_the_tag() {
    for tag in [0u8, 2, 13, 14, 17, 19, 0xFF] {
        let b = vec![0x00, tag, 0x00, 0x01, 0x00, 0x02];
        assert_eq!(
            consume_entry(&b, 1),
            Err(error(ErrorKind::UnknownConstantTag, 1)),
            "tag {}",
            tag
        );
    }
}

#[test]
fn an_entry_without_a_tag_is_out_of_bounds() {
    let b = vec![0x07];
    assert_eq!(consume_entry(&b, 1), Err(error(ErrorKind::OutOfBounds, 1)));
    assert_eq!(consume_entry(&b, 0), Err(error(ErrorKind::OutOfBounds, 1)));
}
