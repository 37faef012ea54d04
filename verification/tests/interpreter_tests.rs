use rlox::interpreter::Interpreter;

#[test]
fn test_interpreter_with_custom_args() {
    let args = vec!["rlox".to_string(), "test.lox".to_string()];
    let interpreter = Interpreter::new_with_args(args.clone());
    assert_eq!(interpreter.args, args);
    assert!(!interpreter.has_error());
}

#[test]
fn test_error_reporting() {
    let mut interpreter = Interpreter::new_with_args(vec![]);
    assert!(!interpreter.has_error());

    interpreter.report(1, "".to_string(), "Test error".to_string());
    assert!(interpreter.has_error());
}

#[test]
fn test_run_simple_source() {
    let mut interpreter = Interpreter::new_with_args(vec![]);
    let had_error = interpreter.run_source("var x = 42;".to_string());
    assert!(!had_error);
}

#[test]
fn test_run_empty_source() {
    let mut interpreter = Interpreter::new_with_args(vec![]);
    let had_error = interpreter.run_source("".to_string());
    assert!(!had_error);
}

#[test]
fn test_run_source_with_comments() {
    let mut interpreter = Interpreter::new_with_args(vec![]);
    let had_error = interpreter.run_source("// This is a comment\nvar x;".to_string());
    assert!(!had_error);
}

#[test]
fn test_run_source_with_string_literals() {
    let mut interpreter = Interpreter::new_with_args(vec![]);
    let had_error = interpreter.run_source("print \"Hello, World!\";".to_string());
    assert!(!had_error);
}

#[test]
fn test_run_source_with_numbers() {
    let mut interpreter = Interpreter::new_with_args(vec![]);
    let had_error = interpreter.run_source("var x = 123.456;".to_string());
    assert!(!had_error);
}

#[test]
fn test_run_source_with_keywords() {
    let mut interpreter = Interpreter::new_with_args(vec![]);
    let source = "if (true) { print \"yes\"; } else { print \"no\"; }";
    let had_error = interpreter.run_source(source.to_string());
    assert!(!had_error);
}

#[test]
fn test_run_source_with_operators() {
    let mut interpreter = Interpreter::new_with_args(vec![]);
    let source = "var result = (1 + 2) * 3 != 4;";
    let had_error = interpreter.run_source(source.to_string());
    assert!(!had_error);
}

#[test]
fn test_multiple_runs_reset_error_state() {
    let mut interpreter = Interpreter::new_with_args(vec![]);

    // First run should succeed
    let had_error1 = interpreter.run_source("var x;".to_string());
    assert!(!had_error1);

    // Manually set error state
    interpreter.report(1, "".to_string(), "Test error".to_string());
    assert!(interpreter.has_error());

    // Second run should reset error state
    let had_error2 = interpreter.run_source("var y;".to_string());
    assert!(!had_error2);
}

#[test]
fn test_complex_program() {
    let mut interpreter = Interpreter::new_with_args(vec![]);
    let source = r#"
        // Variable declarations
        var a = 10;
        var b = 20.5;
        var message = "Hello, World!";

        // Conditional logic
        if (a < b) {
            print "a is less than b";
        } else {
            print "a is greater than or equal to b";
        }

        // Loop
        for (var i = 0; i < 5; i = i + 1) {
            print i;
        }
    "#;

    let had_error = interpreter.run_source(source.to_string());
    assert!(!had_error);
}
