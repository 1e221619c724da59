use jar::error::ProgramErrorKind;
use jar::object::{Object, ObjectData, ObjectKind};
use jar::vm::VM;

fn run_program(text: &str) -> VM {
    let mut vm = VM::from_string(text.to_owned()).unwrap();
    vm.run().unwrap();
    vm
}

fn run_expect_error(text: &str) -> ProgramErrorKind {
    let mut vm = VM::from_string(text.to_owned()).unwrap();
    match vm.run() {
        Ok(()) => panic!("expected the run to fail"),
        Err(e) => e.0,
    }
}

#[test]
fn fib_ten_leaves_fifty_five() {
    let text = "func fib 1\n\
                store_name n\n\
                push_name n\n\
                push_lit 1\n\
                bin_op <=\n\
                return_if n\n\
                push_name n\n\
                push_lit 2\n\
                bin_op -\n\
                call fib\n\
                push_name n\n\
                push_lit 1\n\
                bin_op -\n\
                call fib\n\
                bin_op +\n\
                done\n\
                func main 0\n\
                push_lit 10\n\
                call fib\n\
                done";
    let mut vm = run_program(text);
    assert_eq!(vm.obj_stack.len(), 1);
    assert_eq!(vm.obj_stack.pop(), Some(Object::integer(55)));
}

#[test]
fn fib_result_is_memoized() {
    let text = "func fib 1\n\
                store_name n\n\
                push_name n\n\
                push_lit 1\n\
                bin_op <=\n\
                return_if n\n\
                push_name n\n\
                push_lit 2\n\
                bin_op -\n\
                call fib\n\
                push_name n\n\
                push_lit 1\n\
                bin_op -\n\
                call fib\n\
                bin_op +\n\
                done\n\
                func main 0\n\
                push_lit 10\n\
                call fib\n\
                done";
    let vm = run_program(text);
    // fib is the first function, so its entry index is zero; the cache
    // holds its return value for the argument tuple (10)
    let args = vec![Object::integer(10)];
    assert_eq!(vm.program.memos.lookup(0, &args), Some(Object::integer(55)));
    let args1 = vec![Object::integer(1)];
    assert_eq!(vm.program.memos.lookup(0, &args1), Some(Object::integer(1)));
}

#[test]
fn create_list_get_and_set() {
    let text = "func main 0\n\
                push_lit 1\n\
                push_lit 2\n\
                push_lit 3\n\
                create_list 3\n\
                list_get 1\n\
                done";
    let mut vm = run_program(text);
    assert_eq!(vm.obj_stack.pop(), Some(Object::integer(2)));

    let text2 = "func main 0\n\
                 push_lit 1\n\
                 push_lit 2\n\
                 push_lit 3\n\
                 create_list 3\n\
                 push_lit 9\n\
                 list_set 1\n\
                 list_get 1\n\
                 done";
    let mut vm2 = run_program(text2);
    assert_eq!(vm2.obj_stack.pop(), Some(Object::integer(9)));
}

#[test]
fn do_for_three_times_increments_local_to_three() {
    let text = "func main 0\n\
                push_lit 0\n\
                store_name x\n\
                push_lit 3\n\
                do_for\n\
                push_name x\n\
                push_lit 1\n\
                bin_op +\n\
                store_name x\n\
                done\n\
                push_name x\n\
                done";
    let mut vm = run_program(text);
    assert_eq!(vm.obj_stack.pop(), Some(Object::integer(3)));
}

#[test]
fn push_range_pushes_zero_to_four_in_order() {
    let text = "func main 0\n\
                push_lit 0\n\
                push_lit 5\n\
                push_lit 1\n\
                push_range\n\
                done";
    let mut vm = run_program(text);
    assert_eq!(vm.obj_stack.len(), 5);
    for expected in [4i64, 3, 2, 1, 0] {
        assert_eq!(vm.obj_stack.pop(), Some(Object::integer(expected)));
    }
}

#[test]
fn out_of_bounds_list_get_reports_index_and_length() {
    let text = "func main 0\n\
                push_lit 1\n\
                push_lit 2\n\
                create_list 2\n\
                list_get 5\n\
                done";
    let kind = run_expect_error(text);
    assert_eq!(kind, ProgramErrorKind::ListIndexError(5, 2));
}

#[test]
fn exit_stops_before_later_instructions() {
    let text = "func main 0\n\
                push_lit 7\n\
                exit\n\
                push_lit 9\n\
                done";
    let mut vm = run_program(text);
    assert_eq!(vm.obj_stack.len(), 1);
    assert_eq!(vm.obj_stack.pop(), Some(Object::integer(7)));
}

#[test]
fn iterator_walks_a_list() {
    let text = "func main 0\n\
                push_lit 1\n\
                push_lit 2\n\
                push_lit 3\n\
                create_list 3\n\
                get_iter\n\
                iter_next\n\
                iter_current\n\
                done";
    let mut vm = run_program(text);
    assert_eq!(vm.obj_stack.pop(), Some(Object::integer(2)));
}

#[test]
fn do_if_true_runs_body_and_propagates_locals() {
    let text = "func main 0\n\
                push_lit 1\n\
                push_lit 2\n\
                bin_op <=\n\
                do_if\n\
                push_lit 42\n\
                store_name y\n\
                done\n\
                push_name y\n\
                done";
    let mut vm = run_program(text);
    assert_eq!(vm.obj_stack.pop(), Some(Object::integer(42)));
}

#[test]
fn do_if_false_skips_body() {
    let text = "func main 0\n\
                push_lit 2\n\
                push_lit 1\n\
                bin_op <=\n\
                do_if\n\
                push_lit 42\n\
                done\n\
                done";
    let vm = run_program(text);
    assert_eq!(vm.obj_stack.len(), 0);
}

#[test]
fn sqrt_builtin_takes_integer_square_root() {
    let text = "func main 0\n\
                push_lit 16\n\
                call_builtin sqrt\n\
                done";
    let mut vm = run_program(text);
    assert_eq!(vm.obj_stack.pop(), Some(Object::integer(4)));
}

#[test]
fn println_builtin_records_output() {
    let text = "func main 0\n\
                push_lit 7\n\
                call_builtin println\n\
                done";
    let vm = run_program(text);
    assert_eq!(vm.output.len(), 1);
    assert_eq!(vm.output[0], Object::integer(7));
}

#[test]
fn missing_function_is_reported() {
    let text = "func main 0\n\
                call nosuch\n\
                done";
    let kind = run_expect_error(text);
    assert_eq!(kind, ProgramErrorKind::FunctionExists(b"nosuch".to_vec()));
}

#[test]
fn missing_variable_is_reported() {
    let text = "func main 0\n\
                push_name zz\n\
                done";
    let kind = run_expect_error(text);
    assert_eq!(kind, ProgramErrorKind::VariableExists(b"zz".to_vec()));
}

#[test]
fn empty_temp_register_is_reported() {
    let text = "func main 0\n\
                push_temp\n\
                done";
    assert_eq!(run_expect_error(text), ProgramErrorKind::TempPush);
}

#[test]
fn store_and_push_temp_round_trip() {
    let text = "func main 0\n\
                push_lit 11\n\
                store_temp\n\
                push_temp\n\
                done";
    let mut vm = run_program(text);
    assert_eq!(vm.obj_stack.pop(), Some(Object::integer(11)));
}

#[test]
fn redefining_a_constant_is_reported() {
    let text = "func main 0\n\
                push_lit 5\n\
                store_const c\n\
                push_lit 6\n\
                store_const c\n\
                done";
    let kind = run_expect_error(text);
    assert!(matches!(kind, ProgramErrorKind::ConstantExists(v) if v == b"c".to_vec()));
}

#[test]
fn return_if_const_returns_the_constant() {
    let text = "func main 0\n\
                push_lit 33\n\
                store_const c\n\
                push_lit 1\n\
                push_lit 1\n\
                bin_op <=\n\
                return_if_const c\n\
                done";
    let mut vm = run_program(text);
    assert_eq!(vm.obj_stack.pop(), Some(Object::integer(33)));
}

#[test]
fn iterator_past_the_end_is_reported() {
    let text = "func main 0\n\
                push_lit 1\n\
                create_list 1\n\
                get_iter\n\
                iter_next\n\
                done";
    assert_eq!(run_expect_error(text), ProgramErrorKind::IterNext(1));
}

#[test]
fn iterator_before_the_start_is_reported() {
    let text = "func main 0\n\
                push_lit 1\n\
                create_list 1\n\
                get_iter\n\
                iter_prev\n\
                done";
    assert_eq!(run_expect_error(text), ProgramErrorKind::IterPrevious);
}

#[test]
fn integer_overflow_is_reported() {
    let text = "func main 0\n\
                push_lit 9223372036854775807\n\
                push_lit 1\n\
                bin_op +\n\
                done";
    let kind = run_expect_error(text);
    assert!(matches!(kind, ProgramErrorKind::Overflow(_, 9223372036854775807, 1)));
}

#[test]
fn zero_range_step_is_reported() {
    let text = "func main 0\n\
                push_lit 0\n\
                push_lit 5\n\
                push_lit 0\n\
                push_range\n\
                done";
    assert_eq!(run_expect_error(text), ProgramErrorKind::IntegerToUnsigned);
}

#[test]
fn unimplemented_operator_combination_is_reported() {
    let text = "func main 0\n\
                push_lit yes\n\
                push_lit no\n\
                bin_op +\n\
                done";
    let kind = run_expect_error(text);
    assert!(matches!(kind, ProgramErrorKind::BinopError(_, _, _)));
}

#[test]
fn operand_underflow_is_reported() {
    let text = "func main 0\n\
                bin_op +\n\
                done";
    assert_eq!(run_expect_error(text), ProgramErrorKind::StackError(2));
}

#[test]
fn unknown_operation_is_a_parsing_error() {
    let r = VM::from_string("func main 0\nfrobnicate 1\ndone".to_owned());
    match r {
        Ok(_) => panic!("expected a parsing error"),
        Err(e) => {
            assert!(matches!(e, ProgramErrorKind::ParsingError(s) if s == "frobnicate"));
        },
    }
}

#[test]
fn runaway_recursion_hits_the_depth_guard() {
    let text = "func main 0\n\
                call main\n\
                done";
    let kind = run_expect_error(text);
    assert_eq!(kind, ProgramErrorKind::StackOverflow(100_000));
}

#[test]
fn pointers_read_and_write_through() {
    let text = "func main 0\n\
                push_lit 5\n\
                get_ptr\n\
                store_name p\n\
                push_name p\n\
                push_lit 8\n\
                bin_op +\n\
                done";
    // a pointer is not a number: adding it is an unimplemented combination
    let kind = run_expect_error(text);
    assert!(matches!(kind, ProgramErrorKind::BinopError(_, _, _)));

    let text2 = "func main 0\n\
                 push_lit 5\n\
                 get_ptr\n\
                 store_name p\n\
                 push_name p\n\
                 push_lit 6\n\
                 set_ptr\n\
                 push_name p\n\
                 read_ptr\n\
                 done";
    let mut vm = run_program(text2);
    assert_eq!(vm.obj_stack.pop(), Some(Object::integer(6)));
}

#[test]
fn float_literals_parse_as_fixed_point() {
    let text = "func main 0\n\
                push_lit 2.25\n\
                done";
    let mut vm = run_program(text);
    let obj = vm.obj_stack.pop().unwrap();
    assert_eq!(obj.kind, ObjectKind::Float);
    assert_eq!(obj.data, ObjectData::Float(2, 25));
}

#[test]
fn fixed_point_plus_integer_keeps_the_fraction() {
    let text = "func main 0\n\
                push_lit 2.25\n\
                push_lit 3\n\
                bin_op +\n\
                done";
    let mut vm = run_program(text);
    assert_eq!(vm.obj_stack.pop(), Some(Object::float(5, 25)));
}

#[test]
fn sqrt_of_a_string_is_a_type_error() {
    let text = "func main 0\n\
                push_lit hello\n\
                call_builtin sqrt\n\
                done";
    let kind = run_expect_error(text);
    assert!(matches!(kind, ProgramErrorKind::TypeError(_, _)));
}

#[test]
fn do_for_in_sums_a_named_list() {
    let text = "func main 0\n\
                push_lit 1\n\
                push_lit 2\n\
                push_lit 3\n\
                create_list 3\n\
                store_name xs\n\
                push_lit 0\n\
                store_name acc\n\
                do_for_in xs\n\
                store_name el\n\
                push_name acc\n\
                push_name el\n\
                bin_op +\n\
                store_name acc\n\
                done\n\
                push_name acc\n\
                done";
    let mut vm = run_program(text);
    assert_eq!(vm.obj_stack.pop(), Some(Object::integer(6)));
}

#[test]
fn iterate_walks_a_popped_list() {
    let text = "func main 0\n\
                push_lit 0\n\
                store_name acc\n\
                push_lit 5\n\
                push_lit 7\n\
                create_list 2\n\
                iterate\n\
                store_name el\n\
                push_name acc\n\
                push_name el\n\
                bin_op +\n\
                store_name acc\n\
                done\n\
                push_name acc\n\
                done";
    let mut vm = run_program(text);
    assert_eq!(vm.obj_stack.pop(), Some(Object::integer(12)));
}

#[test]
fn list_push_appends_an_element() {
    let text = "func main 0\n\
                push_lit 1\n\
                push_lit 2\n\
                create_list 2\n\
                push_lit 3\n\
                list_push\n\
                list_get 2\n\
                done";
    let mut vm = run_program(text);
    assert_eq!(vm.obj_stack.pop(), Some(Object::integer(3)));
}

#[test]
fn pop_discards_the_top_operand() {
    let text = "func main 0\n\
                push_lit 9\n\
                push_lit 8\n\
                pop\n\
                done";
    let mut vm = run_program(text);
    assert_eq!(vm.obj_stack.len(), 1);
    assert_eq!(vm.obj_stack.pop(), Some(Object::integer(9)));
}

#[test]
fn create_list_without_a_count_takes_the_whole_stack() {
    let text = "func main 0\n\
                push_lit 1\n\
                push_lit 2\n\
                create_list\n\
                list_get 0\n\
                done";
    let mut vm = run_program(text);
    assert_eq!(vm.obj_stack.pop(), Some(Object::integer(1)));
}
