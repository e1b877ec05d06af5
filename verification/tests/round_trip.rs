use classfile::{parse, Attribute, Class, Const, Field, Interface, Method, MAGIC};

fn put_u16(out: &mut Vec<u8>, v: u16) {
    out.extend(v.to_be_bytes());
}

fn put_attributes(out: &mut Vec<u8>, attributes: &[Attribute]) {
    put_u16(out, attributes.len() as u16);
    for a in attributes {
        put_u16(out, a.name_index);
        out.extend((a.info.len() as u32).to_be_bytes());
        out.extend(&a.info);
    }
}

fn put_member(out: &mut Vec<u8>, flags: u16, name: u16, descriptor: u16, attributes: &[Attribute]) {
    put_u16(out, flags);
    put_u16(out, name);
    put_u16(out, descriptor);
    put_attributes(out, attributes);
}

fn put_const(out: &mut Vec<u8>, entry: &Const) {
    match entry {
        Const::Class { name_index } => {
            out.push(7);
            put_u16(out, *name_index);
        }
        Const::Fieldref { class_index, nameandtype_index } => {
            out.push(9);
            put_u16(out, *class_index);
            put_u16(out, *nameandtype_index);
        }
        Const::Methodref { class_index, nameandtype_index } => {
            out.push(10);
            put_u16(out, *class_index);
            put_u16(out, *nameandtype_index);
        }
        Const::InterfaceMethodref { class_index, nameandtype_index } => {
            out.push(11);
            put_u16(out, *class_index);
            put_u16(out, *nameandtype_index);
        }
        Const::String { string_index } => {
            out.push(8);
            put_u16(out, *string_index);
        }
        Const::Integer(bits) => {
            out.push(3);
            out.extend(bits.to_be_bytes());
        }
        Const::Float(bits) => {
            out.push(4);
            out.extend(bits.to_be_bytes());
        }
        Const::Long(bits) => {
            out.push(5);
            out.extend(bits.to_be_bytes());
        }
        Const::Double(bits) => {
            out.push(6);
            out.extend(bits.to_be_bytes());
        }
        Const::NameAndType { name_index, descriptor_index } => {
            out.push(12);
            put_u16(out, *name_index);
            put_u16(out, *descriptor_index);
        }
        Const::Utf8(text) => {
            out.push(1);
            put_u16(out, text.len() as u16);
            out.extend(text.as_bytes());
        }
        Const::MethodHandle { reference_kind, reference_index } => {
            out.push(15);
            out.push(*reference_kind);
            put_u16(out, *reference_index);
        }
        Const::MethodType { descriptor_index } => {
            out.push(16);
            put_u16(out, *descriptor_index);
        }
        Const::InvokeDynamic { bootstrap_method_attr_index, name_and_type_index } => {
            out.push(18);
            put_u16(out, *bootstrap_method_attr_index);
            put_u16(out, *name_and_type_index);
        }
    }
}

fn write(class: &Class, declared: u16) -> Vec<u8> {
    let mut out = Vec::new();
    out.extend(MAGIC.to_be_bytes());
    put_u16(&mut out, class.minor_version);
    put_u16(&mut out, class.major_version);
    put_u16(&mut out, declared);
    for entry in &class.constant_pool {
        put_const(&mut out, entry);
    }
    put_u16(&mut out, class.access_flags);
    put_u16(&mut out, class.this_class);
    put_u16(&mut out, class.super_class);
    put_u16(&mut out, class.interfaces.len() as u16);
    for i in &class.interfaces {
        put_u16(&mut out, i.index);
    }
    put_u16(&mut out, class.fields.len() as u16);
    for f in &class.fields {
        put_member(&mut out, f.access_flags, f.name_index, f.descriptor_index, &f.attributes);
    }
    put_u16(&mut out, class.methods.len() as u16);
    for m in &class.methods {
        put_member(&mut out, m.access_flags, m.name_index, m.descriptor_index, &m.attributes);
    }
    put_attributes(&mut out, &class.attributes);
    out
}

fn rich() -> Class {
    Class {
        minor_version: 0xFFFF,
        major_version: 0x0037,
        constant_pool: vec![
            Const::Utf8("caf\u{e9} \u{1f680}".to_string()),
            Const::Class { name_index: 1 },
            Const::Fieldref { class_index: 2, nameandtype_index: 9 },
            Const::Methodref { class_index: 2, nameandtype_index: 9 },
            Const::InterfaceMethodref { class_index: 2, nameandtype_index: 9 },
            Const::String { string_index: 1 },
            Const::Integer(0x8000_0000),
            Const::Float(f32::NAN.to_bits()),
            Const::NameAndType { name_index: 1, descriptor_index: 1 },
            Const::Long(u64::MAX),
            Const::Double((-0.0f64).to_bits()),
            Const::MethodHandle { reference_kind: 255, reference_index: 4 },
            Const::MethodType { descriptor_index: 1 },
            Const::InvokeDynamic { bootstrap_method_attr_index: 0, name_and_type_index: 9 },
            Const::Utf8(String::new()),
        ],
        access_flags: 0x7631,
        this_class: 2,
        super_class: 0,
        interfaces: vec![Interface { index: 2 }, Interface { index: 0xFFFF }, Interface { index: 0 }],
        fields: vec![
            Field { access_flags: 1, name_index: 1, descriptor_index: 15, attributes: Vec::new() },
            Field {
                access_flags: 0x4000,
                name_index: 15,
                descriptor_index: 1,
                attributes: vec![
                    Attribute { name_index: 1, info: vec![0; 300] },
                    Attribute { name_index: 2, info: Vec::new() },
                ],
            },
        ],
        methods: vec![Method {
            access_flags: 0x0401,
            name_index: 1,
            descriptor_index: 1,
            attributes: vec![Attribute { name_index: 3, info: (0..=255).collect() }],
        }],
        attributes: vec![
            Attribute { name_index: 4, info: vec![0xCA, 0xFE, 0xBA, 0xBE] },
            Attribute { name_index: 5, info: vec![0xFF] },
        ],
    }
}

fn bare() -> Class {
    Class {
        minor_version: 0,
        major_version: 0,
        constant_pool: Vec::new(),
        access_flags: 0,
        this_class: 0,
        super_class: 0,
        interfaces: Vec::new(),
        fields: Vec::new(),
        methods: Vec::new(),
        attributes: Vec::new(),
    }
}

#[test]
fn a_written_class_decodes_to_itself() {
    let class = rich();
    let bytes = write(&class, class.constant_pool.len() as u16 + 1);
    assert_eq!(parse(&bytes), Ok(class));
}

#[test]
fn a_written_bare_class_decodes_to_itself() {
    let bytes = write(&bare(), 1);
    assert_eq!(bytes.len(), 24);
    assert_eq!(parse(&bytes), Ok(bare()));
}

#[test]
fn a_bare_class_that_declares_no_pool_decodes_to_itself() {
    let bytes = write(&bare(), 0);
    assert_eq!(parse(&bytes), Ok(bare()));
}

#[test]
fn a_written_class_decodes_to_itself_with_bytes_behind_it() {
    let class = rich();
    let mut bytes = write(&class, class.constant_pool.len() as u16 + 1);
    bytes.extend([0x00, 0x01, 0x02, 0xCA, 0xFE, 0xBA, 0xBE]);
    assert_eq!(parse(&bytes), Ok(class));
}

#[test]
fn a_decoded_class_written_again_gives_the_bytes() {
    let class = rich();
    let bytes = write(&class, class.constant_pool.len() as u16 + 1);
    let decoded = parse(&bytes).unwrap();
    assert_eq!(write(&decoded, decoded.constant_pool.len() as u16 + 1), bytes);
}

#[test]
fn a_class_with_the_longest_text_decodes_to_itself() {
    let mut class = bare();
    class.constant_pool = vec![Const::Utf8("x".repeat(0xFFFF)), Const::Utf8("y".to_string())];
    let bytes = write(&class, 3);
    assert_eq!(parse(&bytes), Ok(class));
}

#[test]
fn a_class_with_the_most_interfaces_decodes_to_itself() {
    let mut class = bare();
    class.interfaces = (0..=0xFFFEu16).map(|index| Interface { index }).collect();
    assert_eq!(class.interfaces.len(), 0xFFFF);
    let bytes = write(&class, 1);
    assert_eq!(parse(&bytes), Ok(class));
}

#[test]
fn one_changed_byte_changes_what_is_decoded() {
    let class = rich();
    let bytes = write(&class, class.constant_pool.len() as u16 + 1);
    for at in [4usize, 5, 6, 7, bytes.len() - 1] {
        let mut changed = bytes.clone();
        changed[at] ^= 0x01;
        assert_ne!(parse(&changed), Ok(rich()), "byte {}", at);
    }
}
