use ion_core::splitter::{CommandFound, StatementError, StatementSplitter};

fn collect(input: &str) -> Vec<Result<Vec<u8>, StatementError>> {
    let mut sp = StatementSplitter::new(input.as_bytes().to_vec());
    let mut out = Vec::new();
    while let Some(r) = sp.next() {
        out.push(r);
    }
    out
}

fn ok(s: &str) -> Result<Vec<u8>, StatementError> {
    Ok(s.as_bytes().to_vec())
}

#[test]
fn syntax_errors() {
    let command = "echo (echo one); echo $( (echo one); echo ) two; echo $(echo one";
    let results = collect(command);
    assert_eq!(results[0], Err(StatementError::InvalidCharacter(b'(', 6)));
    assert_eq!(results[1], Err(StatementError::InvalidCharacter(b'(', 26)));
    assert_eq!(results[2], Err(StatementError::InvalidCharacter(b')', 43)));
    assert_eq!(results[3], Err(StatementError::UnterminatedSubshell));
    assert_eq!(results.len(), 4);

    let command = ">echo";
    let results = collect(command);
    assert_eq!(
        results[0],
        Err(StatementError::ExpectedCommandButFound(CommandFound::Redirection))
    );
    assert_eq!(results.len(), 1);

    let command = "echo $((foo bar baz)";
    let results = collect(command);
    assert_eq!(results[0], Err(StatementError::UnterminatedArithmetic));
    assert_eq!(results.len(), 1);
}

#[test]
fn methods() {
    let command = "echo $join(array, ', '); echo @join(var, ', ')";
    let statements = collect(command);
    assert_eq!(statements[0], ok("echo $join(array, ', ')"));
    assert_eq!(statements[1], ok("echo @join(var, ', ')"));
    assert_eq!(statements.len(), 2);
}

#[test]
fn processes() {
    let command = "echo $(seq 1 10); echo $(seq 1 10)";
    for statement in collect(command) {
        assert_eq!(statement, ok("echo $(seq 1 10)"));
    }
}

#[test]
fn array_processes() {
    let command = "echo @(echo one; sleep 1); echo @(echo one; sleep 1)";
    for statement in collect(command) {
        assert_eq!(statement, ok("echo @(echo one; sleep 1)"));
    }
}

#[test]
fn process_with_statements() {
    let command = "echo $(seq 1 10; seq 1 10)";
    for statement in collect(command) {
        assert_eq!(statement, ok(command));
    }
}

#[test]
fn quotes() {
    let command = "echo \"This ;'is a test\"; echo 'This ;\" is also a test'";
    let results = collect(command);
    assert_eq!(results.len(), 2);
    assert_eq!(results[0], ok("echo \"This ;'is a test\""));
    assert_eq!(results[1], ok("echo 'This ;\" is also a test'"));
}

#[test]
fn comments() {
    let command = "echo $(echo one # two); echo three # four";
    let results = collect(command);
    assert_eq!(results.len(), 2);
    assert_eq!(results[0], ok("echo $(echo one # two)"));
    assert_eq!(results[1], ok("echo three"));
}

#[test]
fn nested_process() {
    let command = "echo $(echo one $(echo two) three)";
    let results = collect(command);
    assert_eq!(results.len(), 1);
    assert_eq!(results[0], ok(command));

    let command = "echo $(echo $(echo one; echo two); echo two)";
    let results = collect(command);
    assert_eq!(results.len(), 1);
    assert_eq!(results[0], ok(command));
}

#[test]
fn nested_array_process() {
    let command = "echo @(echo one @(echo two) three)";
    let results = collect(command);
    assert_eq!(results.len(), 1);
    assert_eq!(results[0], ok(command));

    let command = "echo @(echo @(echo one; echo two); echo two)";
    let results = collect(command);
    assert_eq!(results.len(), 1);
    assert_eq!(results[0], ok(command));
}

#[test]
fn braced_variables() {
    let command = "echo ${foo}bar ${bar}baz ${baz}quux @{zardoz}wibble";
    let results = collect(command);
    assert_eq!(results.len(), 1);
    assert_eq!(results, vec![ok(command)]);
}

#[test]
fn rejoining_statements_keeps_boundaries() {
    // re-tokenizing the output statements joined with `;` gives them back
    for command in [
        "echo one; echo two; echo three",
        "echo $(seq 1 10); echo $(seq 1 10)",
        "echo \"a ; b\"; echo 'c ; d'",
        "echo $join(array, ', '); echo @join(var, ', ')",
    ] {
        let first: Vec<_> = collect(command).into_iter().map(Result::unwrap).collect();
        let joined = first
            .iter()
            .map(|s| String::from_utf8(s.clone()).unwrap())
            .collect::<Vec<_>>()
            .join("; ");
        let second: Vec<_> = collect(&joined).into_iter().map(Result::unwrap).collect();
        assert_eq!(first, second);
    }
}

#[test]
fn else_is_resplit() {
    let results = collect("else echo one");
    assert_eq!(results.len(), 2);
    assert_eq!(results[0], ok("else"));
    assert_eq!(results[1], ok("echo one"));

    let results = collect("else if test");
    assert_eq!(results, vec![ok("else if test")]);
}

#[test]
fn error_variants() {
    assert_eq!(collect("${foo"), vec![Err(StatementError::UnterminatedBracedVar)]);
    assert_eq!(collect("{ foo"), vec![Err(StatementError::UnterminatedBrace)]);
    assert_eq!(collect("echo $join(a"), vec![Err(StatementError::UnterminatedMethod)]);
    assert_eq!(
        collect("|foo"),
        vec![Err(StatementError::ExpectedCommandButFound(CommandFound::Pipe))]
    );
    assert_eq!(
        collect("&foo"),
        vec![Err(StatementError::ExpectedCommandButFound(CommandFound::Ampersand))]
    );
    assert_eq!(
        collect("*glob"),
        vec![Err(StatementError::IllegalCommandName(b"*glob".to_vec()))]
    );
    assert_eq!(
        collect("${foo bar}"),
        vec![Err(StatementError::InvalidCharacter(b' ', 6))]
    );
}

#[test]
fn empty_statement_is_not_an_error() {
    assert_eq!(collect("   "), vec![ok("")]);
}

#[test]
fn helper_functions() {
    assert!(ion_core::splitter::is_invalid(b' '));
    assert!(ion_core::splitter::is_invalid(b'('));
    assert!(!ion_core::splitter::is_invalid(b'a'));
    assert!(!ion_core::splitter::is_invalid(b'_'));
    assert!(!ion_core::splitter::is_invalid(b'7'));
}
