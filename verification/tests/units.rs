use jar::binops;
use jar::binops::BinOpKind;
use jar::builtin::{int_isqrt, object_sqrt, BuiltIn};
use jar::error::ProgramErrorKind;
use jar::file::ObjectSaveable;
use jar::frame::Frame;
use jar::indexmap::{IndexMap, IndexSet};
use jar::map::{ObjMap, ObjSet};
use jar::mutable::MutableObject;
use jar::object::{Object, ObjectData, ObjectKind};
use jar::operation::Operation;
use jar::program::{objects_equal, MemoTable, Program};
use jar::span::Span;
use jar::stack::Stack;
use jar::utils;

fn whole(v: i64) -> ObjectData {
    ObjectData::Integer(v)
}

#[test]
fn stack_pop_returns_the_last_push() {
    let mut s: Stack<i64> = Stack::new();
    s.push(41);
    s.push(42);
    assert_eq!(s.pop(), Some(42));
    assert_eq!(s.pop(), Some(41));
    assert_eq!(s.pop(), None);
}

#[test]
fn stack_pop_n_returns_push_order() {
    let mut s: Stack<i64> = Stack::new();
    s.push(1);
    s.push(2);
    s.push(3);
    assert_eq!(s.len(), 3);
    assert_eq!(s.last(), Some(&3));
    assert_eq!(s.last_n(2), Some(vec![2, 3]));
    assert_eq!(s.pop_n(2), Some(vec![2, 3]));
    assert_eq!(s.pop_n(5), None);
    assert_eq!(s.pop_n(1), Some(vec![1]));
}

#[test]
fn binop_integer_arithmetic_is_exact() {
    assert_eq!(binops::add(whole(2), whole(3)), Ok(Object::integer(5)));
    assert_eq!(binops::sub(whole(2), whole(3)), Ok(Object::integer(-1)));
    assert_eq!(binops::mul(whole(6), whole(7)), Ok(Object::integer(42)));
    assert_eq!(binops::div(whole(-7), whole(2)), Ok(Object::integer(-3)));
    assert_eq!(binops::modulus(whole(-7), whole(3)), Ok(Object::integer(-1)));
    assert_eq!(binops::eq(whole(4), whole(4)), Ok(Object::boolean(true)));
    assert_eq!(binops::lesser(whole(3), whole(4)), Ok(Object::boolean(true)));
    assert_eq!(binops::greater(whole(3), whole(4)), Ok(Object::boolean(false)));
    assert_eq!(binops::lesseq(whole(4), whole(4)), Ok(Object::boolean(true)));
    assert_eq!(binops::greateq(whole(3), whole(4)), Ok(Object::boolean(false)));
    assert_eq!(
        binops::and(ObjectData::Bool(true), ObjectData::Bool(false)),
        Ok(Object::boolean(false))
    );
    assert_eq!(
        binops::or(ObjectData::Bool(true), ObjectData::Bool(false)),
        Ok(Object::boolean(true))
    );
    assert_eq!(binops::pow(whole(2), whole(10)), Ok(Object::integer(1024)));
    assert_eq!(binops::pow(whole(-2), whole(3)), Ok(Object::integer(-8)));
}

#[test]
fn binop_edge_cases_error_exactly() {
    assert_eq!(
        binops::add(whole(i64::MAX), whole(1)),
        Err(ProgramErrorKind::Overflow(BinOpKind::Add, i64::MAX, 1))
    );
    assert_eq!(
        binops::div(whole(5), whole(0)),
        Err(ProgramErrorKind::Overflow(BinOpKind::Div, 5, 0))
    );
    assert_eq!(
        binops::modulus(whole(5), whole(0)),
        Err(ProgramErrorKind::Overflow(BinOpKind::Mod, 5, 0))
    );
    assert_eq!(binops::pow(whole(2), whole(-1)), Err(ProgramErrorKind::IntegerToUnsigned));
    assert_eq!(
        binops::pow(whole(2), whole(64)),
        Err(ProgramErrorKind::Overflow(BinOpKind::Power, 2, 64))
    );
    // the whole-number root collapses: only a root exponent of one is useful
    assert_eq!(binops::root(whole(9), whole(1)), Ok(Object::integer(9)));
    assert_eq!(binops::root(whole(9), whole(2)), Ok(Object::integer(1)));
    assert_eq!(binops::root(whole(9), whole(-1)), Err(ProgramErrorKind::IntegerToUnsigned));
    assert!(matches!(
        binops::root(whole(9), whole(0)),
        Err(ProgramErrorKind::Overflow(BinOpKind::Root, 9, 0))
    ));
    assert!(matches!(
        binops::add(ObjectData::Bool(true), whole(1)),
        Err(ProgramErrorKind::BinopError(BinOpKind::Add, _, _))
    ));
}

#[test]
fn mixed_addition_keeps_the_fraction() {
    assert_eq!(
        binops::add(whole(2), ObjectData::Float(3, 5)),
        Ok(Object::float(5, 5))
    );
    assert_eq!(
        binops::add(ObjectData::Float(3, 5), whole(2)),
        Ok(Object::float(5, 5))
    );
}

#[test]
fn binop_tokens_resolve() {
    assert_eq!(BinOpKind::from_string("+"), Some(BinOpKind::Add));
    assert_eq!(BinOpKind::from_string("<="), Some(BinOpKind::LessEq));
    assert_eq!(BinOpKind::from_string("pow"), Some(BinOpKind::Power));
    assert_eq!(BinOpKind::from_string("root"), Some(BinOpKind::Root));
    assert_eq!(BinOpKind::from_string("?"), None);
}

#[test]
fn builtin_names_resolve() {
    assert_eq!(BuiltIn::from_string("println"), Some(BuiltIn::PrintLn));
    assert_eq!(BuiltIn::from_string("sqrt"), Some(BuiltIn::Sqrt));
    assert_eq!(BuiltIn::from_string("cbrt"), None);
}

#[test]
fn integer_square_roots_are_exact() {
    assert_eq!(int_isqrt(0), 0);
    assert_eq!(int_isqrt(1), 1);
    assert_eq!(int_isqrt(10), 3);
    assert_eq!(int_isqrt(16), 4);
    assert_eq!(int_isqrt(i64::MAX), 3037000499);
    assert_eq!(object_sqrt(Object::integer(99)), Object::integer(9));
}

#[test]
fn opcode_table_round_trips() {
    assert!(Operation::op_exists("bin_op"));
    assert!(Operation::op_exists("iter_current"));
    assert!(!Operation::op_exists("bogus"));
    assert_eq!(Operation::get_opcode("bin_op"), 1);
    assert_eq!(Operation::get_opcode("done"), 13);
    assert_eq!(Operation::get_opcode("iter_current"), 31);
    assert_eq!(Operation::get_opcode("nope"), 0);
    assert_eq!(Operation::new(6, None), Some(Operation::PushTemp));
    assert_eq!(Operation::new(4, None), None);
    assert_eq!(
        Operation::new(4, Some(Object::integer(9))),
        Some(Operation::PushLit(Object::integer(9)))
    );
    assert_eq!(
        Operation::new(20, Some(Object::integer(3))),
        Some(Operation::CreateList(Some(3)))
    );
    assert_eq!(Operation::new(20, Some(Object::integer(-1))), None);
    assert!(matches!(Operation::arg_error(), ProgramErrorKind::ParsingError(_)));
}

#[test]
fn literal_parser_is_exact() {
    assert_eq!(utils::string_to_t("123"), Ok(123));
    assert_eq!(utils::string_to_t("-45"), Ok(-45));
    assert_eq!(utils::string_to_t("0"), Ok(0));
    assert_eq!(utils::string_to_t("9223372036854775807"), Ok(i64::MAX));
    assert_eq!(utils::string_to_t("-9223372036854775808"), Ok(i64::MIN));
    assert!(utils::string_to_t("9223372036854775808").is_err());
    assert!(utils::string_to_t("").is_err());
    assert!(utils::string_to_t("-").is_err());
    assert!(utils::string_to_t("12x").is_err());
}

#[test]
fn float_shapes_are_recognised() {
    assert!(utils::string_is_float_like("1.5".to_owned()));
    assert!(utils::string_is_float_like(".5".to_owned()));
    assert!(utils::string_is_float_like("12.".to_owned()));
    assert!(!utils::string_is_float_like("125".to_owned()));
    assert!(!utils::string_is_float_like("a.5".to_owned()));
}

#[test]
fn small_helpers_behave() {
    assert!(utils::bounded(1, 2, 3));
    assert!(!utils::bounded(1, 0, 3));
    assert_eq!(utils::isize_to_usize(5), 5);
    assert_eq!(utils::isize_to_usize(-1), usize::MAX);
    assert_eq!(utils::unwrap_or_error(Some(7), ProgramErrorKind::TempPush), Ok(7));
    assert_eq!(
        utils::unwrap_or_error::<i64>(None, ProgramErrorKind::TempPush),
        Err(ProgramErrorKind::TempPush)
    );
    assert_eq!(utils::unwrap_as_string_or(Some("a".to_owned()), "b"), "a");
    assert_eq!(utils::unwrap_as_string_or(None, "b"), "b");
    assert_eq!(utils::bytes_to_string(b"hello"), "hello");
    assert!(utils::chars_eq("abc", "abc"));
    assert!(!utils::chars_eq("abc", "abd"));
    assert!(!utils::chars_eq("abc", "ab"));
}

#[test]
fn obj_set_and_map_behave() {
    let mut set = ObjSet::new();
    set.push(Object::integer(1));
    set.push(Object::integer(2));
    set.push(Object::integer(1));
    assert_eq!(set.len(), 2);
    assert_eq!(set.index_of(&Object::integer(2)), Some(1));
    assert_eq!(set.index_of(&Object::integer(9)), None);

    let mut map: ObjMap<i64> = ObjMap::new();
    map.insert(Object::integer(1), 10);
    map.insert(Object::integer(2), 20);
    map.insert(Object::integer(1), 11);
    assert_eq!(map.len(), 2);
    assert_eq!(map.get(&Object::integer(1)), Some(&11));
    assert_eq!(map.get(&Object::integer(3)), None);
}

#[test]
fn index_map_and_set_behave() {
    let mut m: IndexMap<i64> = IndexMap::new();
    assert_eq!(m.insert(5, 50), None);
    assert_eq!(m.insert(5, 55), Some(50));
    let a = m.push(100);
    let b = m.push(200);
    assert_eq!(m.get(&a), Some(&100));
    assert_eq!(m.get(&b), Some(&200));
    assert_eq!(m.get(&5), Some(&55));
    assert_eq!(m.get(&9999), None);
    assert_eq!(m.elements().len(), 3);

    let mut s = IndexSet::new();
    let i1 = s.add(Object::integer(7));
    let i2 = s.add(Object::integer(8));
    let i3 = s.add(Object::integer(7));
    assert_eq!(i1, i3);
    assert_ne!(i1, i2);
    assert_eq!(s.get(&i1), Some(&Object::integer(7)));
}

#[test]
fn memo_table_round_trips() {
    let mut m = MemoTable::new();
    let args = vec![Object::integer(4)];
    assert_eq!(m.lookup(0, &args), None);
    m.insert(0, args.clone(), Object::integer(3));
    assert_eq!(m.lookup(0, &args), Some(Object::integer(3)));
    // a structurally equal tuple hits the same entry
    let equal_args = vec![Object::integer(4)];
    assert_eq!(m.lookup(0, &equal_args), Some(Object::integer(3)));
    // a different entry index misses
    assert_eq!(m.lookup(1, &args), None);
    // overwriting replaces the value
    m.insert(0, equal_args, Object::integer(5));
    assert_eq!(m.lookup(0, &args), Some(Object::integer(5)));
    assert!(objects_equal(&vec![Object::nil()], &vec![Object::nil()]));
}

#[test]
fn frame_locals_bind_and_shadow() {
    let mut f = Frame::new(9);
    assert_eq!(f.return_address, 9);
    let name = Object::string(100, 1);
    assert_eq!(f.get_local(&name), None);
    f.add_local(name, Object::integer(1));
    assert_eq!(f.get_local(&name), Some(Object::integer(1)));
    f.add_local(name, Object::integer(2));
    assert_eq!(f.get_local(&name), Some(Object::integer(2)));
    let copy = f.duplicate();
    assert_eq!(copy.get_local(&name), Some(Object::integer(2)));
}

#[test]
fn interning_deduplicates_byte_strings() {
    let mut p = Program::empty();
    let a = p.register(b"fib").unwrap();
    let b = p.register(b"other").unwrap();
    let c = p.register(b"fib").unwrap();
    assert_eq!(a, c);
    assert_ne!(a, b);
    assert_eq!(p.read_range(a.0, a.1), b"fib".to_vec());
    assert_eq!(p.read_range(b.0, b.1), b"other".to_vec());
    assert_eq!(p.register(b""), None);
}

#[test]
fn span_empty_is_all_empty() {
    let s = Span::empty();
    assert_eq!(s.program_count, 0);
    assert!(matches!(s.current_op, Operation::Empty));
    assert!(matches!(s.prev_op, Operation::Empty));
    assert!(matches!(s.next_op, Operation::Empty));
}

#[test]
fn object_saveable_tags_each_kind() {
    assert_eq!(ObjectSaveable::from_object(Object::integer(258)).0[0], 0);
    assert_eq!(ObjectSaveable::from_object(Object::integer(258)).0.len(), 9);
    assert_eq!(ObjectSaveable::from_object(Object::float(1, 2)).0[0], 1);
    assert_eq!(ObjectSaveable::from_object(Object::boolean(true)).0, vec![3, 1]);
    assert_eq!(ObjectSaveable::from_object(Object::nil()).0, vec![6]);
    let int_bytes = ObjectSaveable::from_object(Object::integer(258)).0;
    assert_eq!(&int_bytes[1..], &[0, 0, 0, 0, 0, 0, 1, 2]);
}

#[test]
fn mutable_object_wraps_values() {
    let m = MutableObject::from_object(Object::integer(3));
    assert!(matches!(m, MutableObject::Object(o) if o == Object::integer(3)));
}

#[test]
fn objects_compare_structurally() {
    assert_eq!(Object::integer(1), Object::integer(1));
    assert_ne!(Object::integer(1), Object::integer(2));
    assert_ne!(Object::integer(1), Object::nil());
    assert_eq!(Object::list(4, 2), Object::list(4, 2));
    assert_eq!(Object::iterator(4, 2, 1).kind, ObjectKind::Iterator);
}

#[test]
fn stack_set_last_replaces_in_place() {
    let mut s: Stack<i64> = Stack::new();
    assert!(!s.set_last(9));
    s.push(1);
    s.push(2);
    assert!(s.set_last(9));
    assert_eq!(s.pop(), Some(9));
    assert_eq!(s.pop(), Some(1));
}

#[test]
fn index_map_set_value_updates_existing_only() {
    let mut m: IndexMap<i64> = IndexMap::new();
    let a = m.push(10);
    assert_eq!(m.set_value(a, 11), Some(10));
    assert_eq!(m.get(&a), Some(&11));
    assert_eq!(m.set_value(999, 1), None);
    assert_eq!(m.get(&999), None);
}
