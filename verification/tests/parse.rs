use n2::eval::{EvalPart, EvalString};
use n2::parse::{Parser, Statement};

fn test_case_buffer(test_case: &str) -> Vec<u8> {
    let mut buf = test_case.as_bytes().to_vec();
    buf.push(0);
    buf
}

fn test_for_line_endings(input: &[&str], test: fn(&str)) {
    let test_case_lf = input.join("\n");
    let test_case_crlf = input.join("\r\n");
    for test_case in [test_case_lf, test_case_crlf] {
        test(&test_case);
    }
}

fn lit(s: &str) -> EvalPart {
    EvalPart::Literal(s.as_bytes().to_vec())
}

fn var(s: &str) -> EvalPart {
    EvalPart::VarRef(s.as_bytes().to_vec())
}

#[test]
fn parse_defaults() {
    test_for_line_endings(&["var = 3", "default a b$var c", ""], |test_case| {
        let buf = test_case_buffer(test_case);
        let mut parser = Parser::new(&buf, b"build.ninja".to_vec(), 0);
        match parser.read().ok().unwrap().unwrap() {
            Statement::VariableAssignment(_) => {}
            _ => panic!("expected variable assignment"),
        };
        let default = match parser.read().ok().unwrap().unwrap() {
            Statement::Default(d) => d.files,
            _ => panic!("expected default"),
        };
        assert_eq!(
            default.iter().map(|x| x.parse()).collect::<Vec<_>>(),
            vec![vec![lit("a")], vec![lit("b"), var("var")], vec![lit("c")],]
        );
    });
}

#[test]
fn parse_dot_in_eval() {
    let buf = test_case_buffer("x = $y.z\n");
    let mut parser = Parser::new(&buf, b"build.ninja".to_vec(), 0);
    let Ok(Some(Statement::VariableAssignment((name, x)))) = parser.read() else {
        panic!("Fail");
    };
    assert_eq!(name, b"x".to_vec());
    assert_eq!(x.unevaluated.parse(), vec![var("y"), lit(".z")]);
}

#[test]
fn parse_dot_in_rule() {
    let buf = test_case_buffer("rule x.y\n  command = x\n");
    let mut parser = Parser::new(&buf, b"build.ninja".to_vec(), 0);
    let Ok(Some(Statement::Rule((name, stmt)))) = parser.read() else {
        panic!("Fail");
    };
    assert_eq!(name, b"x.y".to_vec());
    assert_eq!(stmt.vars.len(), 1);
    assert_eq!(
        stmt.vars.get(b"command").map(|e| e.0.clone()),
        Some(EvalString::new(b"x".to_vec()).0)
    );
}

#[test]
fn parse_trailing_newline() {
    let buf = test_case_buffer("build$\n foo$\n : $\n  touch $\n\n");
    let mut parser = Parser::new(&buf, b"build.ninja".to_vec(), 0);
    let stmt = parser.read().ok().unwrap().unwrap();
    let Statement::Build(stmt) = stmt else {
        panic!("Wasn't a build");
    };
    assert_eq!(stmt.rule, b"touch".to_vec());
}

#[test]
fn parse_clumps_split_at_include() {
    let buf = test_case_buffer("a = 1\nrule r\n  command = x\ninclude other.ninja\npool p\n  depth = 2\nb = 2\n");
    let mut parser = Parser::new(&buf, b"build.ninja".to_vec(), 0);
    let clumps = parser.read_clumps().ok().unwrap();
    assert_eq!(clumps.len(), 3);
    match &clumps[0] {
        n2::parse::ClumpOrInclude::Clump(c) => {
            assert_eq!(c.assignments.len(), 1);
            assert_eq!(c.rules.len(), 1);
            assert_eq!(c.assignments[0].1.scope_position.0, 0);
            assert_eq!(c.rules[0].1.scope_position.0, 1);
            assert_eq!(c.used_scope_positions, 2);
        }
        _ => panic!("expected a clump"),
    }
    match &clumps[1] {
        n2::parse::ClumpOrInclude::Include(e) => assert_eq!(e.0, b"other.ninja".to_vec()),
        _ => panic!("expected an include"),
    }
    match &clumps[2] {
        n2::parse::ClumpOrInclude::Clump(c) => {
            assert_eq!(c.pools.len(), 1);
            assert_eq!(c.assignments.len(), 1);
            // Pools take no scope position.
            assert_eq!(c.assignments[0].1.scope_position.0, 0);
            assert_eq!(c.used_scope_positions, 1);
        }
        _ => panic!("expected a clump"),
    }
}

#[test]
fn split_chunks_cover_manifest() {
    let mut text = Vec::new();
    for i in 0..40000 {
        text.extend_from_slice(format!("build out{}: touch in{}\n", i, i).as_bytes());
    }
    let chunks = n2::parse::split_manifest_into_chunks(&text, 2);
    assert!(chunks.len() > 1);
    let joined: Vec<u8> = chunks.iter().flat_map(|c| c.iter().copied()).collect();
    assert_eq!(joined, text);
    for c in &chunks[1..] {
        assert!(c.starts_with(b"build"));
    }
}

#[test]
fn split_chunks_small_manifest_is_one_chunk() {
    let text = b"rule touch\n  command = touch $out\nbuild a: touch\n".to_vec();
    let chunks = n2::parse::split_manifest_into_chunks(&text, 4);
    assert_eq!(chunks, vec![&text[..]]);
}
