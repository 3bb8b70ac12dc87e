use calculator::TemplateApp;

#[test]
fn default_state_has_placeholder_output() {
    let app = TemplateApp::default();
    assert_eq!(app.input, "");
    assert_eq!(app.output, "output is empty");
}

#[test]
fn compute_replaces_output_with_result() {
    let mut app = TemplateApp {
        input: String::from("2+3*4"),
        output: String::from("stale"),
    };
    app.compute();
    assert_eq!(app.input, "2+3*4");
    assert_eq!(app.output, "14");
}

#[test]
fn compute_replaces_output_with_error_message() {
    let mut app = TemplateApp {
        input: String::from("10/0"),
        output: String::from("stale"),
    };
    app.compute();
    assert_eq!(app.output, "division by zero");
}

#[test]
fn compute_on_empty_input_is_a_no_op() {
    let mut app = TemplateApp {
        input: String::new(),
        output: String::from("kept"),
    };
    app.compute();
    assert_eq!(app.output, "kept");
}

#[test]
fn compute_on_untokenizable_input_is_a_no_op() {
    let mut app = TemplateApp {
        input: String::from("2 & 3"),
        output: String::from("kept"),
    };
    app.compute();
    assert_eq!(app.output, "kept");
}

#[test]
fn compute_is_whitespace_insensitive() {
    let mut a = TemplateApp {
        input: String::from("2+3"),
        output: String::new(),
    };
    let mut b = TemplateApp {
        input: String::from(" 2 + 3 "),
        output: String::new(),
    };
    a.compute();
    b.compute();
    assert_eq!(a.output, b.output);
    assert_eq!(a.output, "5");
}

#[test]
fn compute_twice_is_stable() {
    let mut app = TemplateApp {
        input: String::from("(2+3)*4"),
        output: String::new(),
    };
    app.compute();
    let first = app.output.clone();
    app.compute();
    assert_eq!(app.output, first);
    assert_eq!(app.output, "20");
}
