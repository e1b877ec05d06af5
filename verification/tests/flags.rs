use classfile::{parse, AccessFlag, Class, Const};

const ALL: [(AccessFlag, u16); 8] = [
    (AccessFlag::Public, 0x0001),
    (AccessFlag::Final, 0x0010),
    (AccessFlag::Super, 0x0020),
    (AccessFlag::Interface, 0x0200),
    (AccessFlag::Abstract, 0x0400),
    (AccessFlag::Synthetic, 0x1000),
    (AccessFlag::Annotation, 0x2000),
    (AccessFlag::Enum, 0x4000),
];

#[test]
fn each_flag_has_its_bit() {
    for (flag, bit) in ALL {
        assert_eq!(flag.mask(), bit);
    }
}

#[test]
fn a_flag_is_set_where_its_bit_is() {
    for (flag, bit) in ALL {
        assert!(flag.is_set(bit));
        assert!(flag.is_set(0xFFFF));
        assert!(!flag.is_set(0));
        assert!(!flag.is_set(!bit));
    }
}

#[test]
fn flags_combine_by_or() {
    let flags = AccessFlag::Public.mask() | AccessFlag::Super.mask();
    assert_eq!(flags, 0x0021);
    for (flag, _) in ALL {
        let expected = flag == AccessFlag::Public || flag == AccessFlag::Super;
        assert_eq!(flag.is_set(flags), expected);
    }
    for (flag, _) in ALL {
        for (other, bit) in ALL {
            if flag != other {
                assert_eq!(flag.is_set(flags | bit), flag.is_set(flags));
            }
        }
    }
}

fn class_with_pool(pool: Vec<Const>) -> Class {
    let mut class = parse(&vec![
        0xCA, 0xFE, 0xBA, 0xBE, 0, 0, 0, 52, 0, 1, 0, 0x21, 0, 1, 0, 2, 0, 0, 0, 0, 0, 0, 0, 0,
    ])
    .unwrap();
    class.constant_pool = pool;
    class
}

#[test]
fn pool_indices_start_at_one() {
    let class = class_with_pool(vec![Const::Integer(10), Const::Integer(20), Const::Integer(30)]);
    assert_eq!(class.constant(0), None);
    assert_eq!(class.constant(1), Some(&Const::Integer(10)));
    assert_eq!(class.constant(2), Some(&Const::Integer(20)));
    assert_eq!(class.constant(3), Some(&Const::Integer(30)));
    assert_eq!(class.constant(4), None);
    assert_eq!(class.constant(u16::MAX), None);
}

#[test]
fn an_empty_pool_has_no_entry() {
    let class = class_with_pool(Vec::new());
    assert_eq!(class.constant(0), None);
    assert_eq!(class.constant(1), None);
}
