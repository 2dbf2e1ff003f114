use goreutils::library::{lib_draw, lib_standalone, Library};
use goreutils::token::{classify_word, same_text};
use goreutils::types::{flt_bits_eq, NativeFnIndex, TokenKind, Value};

fn flt(x: f32) -> Value {
    Value::Flt(x.to_bits())
}

#[test]
fn nothing_equals_only_itself() {
    assert_eq!(Value::Nothing, Value::Nothing);
    assert_ne!(Value::Nothing, Value::Int(0));
    assert_ne!(Value::Int(0), Value::Nothing);
    assert_ne!(Value::Nothing, Value::List(vec![]));
}

#[test]
fn numbers_compare_by_value() {
    assert_eq!(Value::Int(3), Value::Int(3));
    assert_ne!(Value::Int(3), Value::Int(4));
    assert_ne!(Value::Int(1), flt(1.0));
    assert_eq!(flt(0.2), flt(0.2));
    assert_ne!(flt(0.2), flt(0.25));
    assert_eq!(flt(0.0), flt(-0.0));
    assert_ne!(flt(f32::NAN), flt(f32::NAN));
    assert_ne!(flt(f32::NAN), flt(0.0));
    assert_eq!(flt(f32::INFINITY), flt(f32::INFINITY));
    assert_ne!(flt(f32::INFINITY), flt(f32::NEG_INFINITY));
}

#[test]
fn float_bits_compare_as_the_floats_do() {
    let samples = [
        0.0f32,
        -0.0,
        1.0,
        -1.0,
        0.2,
        f32::MIN_POSITIVE,
        f32::MAX,
        f32::MIN,
        f32::INFINITY,
        f32::NEG_INFINITY,
        f32::NAN,
        -f32::NAN,
        f32::from_bits(0x7f80_0001),
        f32::from_bits(0xffff_ffff),
        f32::from_bits(1),
        f32::from_bits(0x8000_0001),
    ];
    for a in samples {
        for b in samples {
            assert_eq!(flt_bits_eq(a.to_bits(), b.to_bits()), a == b);
        }
    }
}

#[test]
fn lists_compare_element_by_element() {
    assert_eq!(Value::List(vec![]), Value::List(vec![]));
    assert_eq!(
        Value::List(vec![Value::Int(1), Value::List(vec![flt(0.0)])]),
        Value::List(vec![Value::Int(1), Value::List(vec![flt(-0.0)])])
    );
    assert_ne!(Value::List(vec![Value::Int(1)]), Value::List(vec![Value::Int(1), Value::Int(1)]));
    assert_ne!(Value::List(vec![Value::Int(1)]), Value::List(vec![Value::Int(2)]));
    assert_ne!(Value::List(vec![Value::Fn(0)]), Value::List(vec![Value::Fn(0)]));
}

#[test]
fn a_function_equals_nothing_not_even_itself() {
    assert_ne!(Value::Fn(1), Value::Fn(1));
    assert_ne!(Value::NativeFn(NativeFnIndex(1)), Value::NativeFn(NativeFnIndex(1)));
    let f = Value::NativeFn(NativeFnIndex(2));
    assert!(f != f.clone());
}

#[test]
fn a_clone_is_a_deep_copy() {
    let v = Value::List(vec![Value::Int(1), Value::List(vec![Value::Nothing, flt(1.5)])]);
    let mut c = v.clone();
    assert_eq!(v, c);
    if let Value::List(items) = &mut c {
        items.push(Value::Int(2));
    }
    assert_ne!(v, c);
    assert_eq!(
        v,
        Value::List(vec![Value::Int(1), Value::List(vec![Value::Nothing, flt(1.5)])])
    );
    assert!(matches!(Value::Fn(7).clone(), Value::Fn(7)));
    assert!(matches!(
        Value::NativeFn(NativeFnIndex(7)).clone(),
        Value::NativeFn(NativeFnIndex(7))
    ));
}

#[test]
fn the_libraries_list_their_names_in_slot_order() {
    assert_eq!(
        lib_standalone(),
        vec![
            "int", "flt", "list", "cmp", "not", "neg", "eq", "add", "sub", "mul", "div", "pi",
            "print"
        ]
    );
    assert_eq!(
        lib_draw(),
        vec![
            "int", "flt", "list", "cmp", "not", "neg", "eq", "add", "sub", "mul", "div", "pi",
            "uv_x", "uv_y", "px_x", "px_y", "width", "height"
        ]
    );
}

#[test]
fn words_are_compared_by_their_characters() {
    assert!(same_text("", ""));
    assert!(same_text("abc", "abc"));
    assert!(same_text("héllo", "héllo"));
    assert!(!same_text("abc", "abd"));
    assert!(!same_text("abc", "ab"));
    assert!(!same_text("é", "e"));
    assert_eq!(classify_word("let"), TokenKind::Let);
    assert_eq!(classify_word("set"), TokenKind::Assign);
    assert_eq!(classify_word("none"), TokenKind::Nothing);
    assert_eq!(classify_word("nones"), TokenKind::Ident);
    assert_eq!(classify_word("Let"), TokenKind::Ident);
}

#[test]
fn a_library_pairs_each_name_with_its_function() {
    let lib = Library::new(vec!["a", "b", "c"], vec![10, 20, 30]).unwrap();
    assert_eq!(lib.len(), 3);
    assert_eq!(lib.names(), &["a", "b", "c"]);
    assert_eq!(lib.function(&NativeFnIndex(0)), Some(&10));
    assert_eq!(lib.function(&NativeFnIndex(2)), Some(&30));
    assert_eq!(lib.function(&NativeFnIndex(3)), None);
    assert!(Library::new(vec!["a"], vec![1, 2]).is_none());
    assert!(Library::<u8>::new(vec!["a"], vec![]).is_none());
    let empty = Library::<u8>::new(vec![], vec![]).unwrap();
    assert_eq!(empty.len(), 0);
    assert_eq!(empty.function(&NativeFnIndex(0)), None);
}
