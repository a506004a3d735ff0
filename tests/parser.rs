use hacky::parser::{Command, ParseError, Parser, Symbol};

fn parser_of(lines: &[&str]) -> Parser {
    Parser::new(lines.iter().map(|l| l.to_string()).collect())
}

#[test]
fn label_invalid_test() {
    let label = "(123)";
    let mut p = parser_of(&[label]);

    let res = p.advance();

    assert!(res.is_err());
}

#[test]
fn label_valid_test() {
    let label = "(hello)";
    let mut p = parser_of(&[label]);

    let res = p.advance();

    assert!(res.is_ok());
}

#[test]
fn valid_a_test() {
    let label = "@hello";
    let mut p = parser_of(&[label]);

    let res = p.advance();

    assert!(res.is_ok());
}

#[test]
fn c_no_jmp_test() {
    let label = "M=D+M";
    let mut p = parser_of(&[label]);

    let res = p.advance();

    assert!(res.is_ok());

    let command = p.get_current().unwrap();

    match command {
        Command::CCommand { dest, comp, jmp } => {
            assert_eq!(dest.as_ref().unwrap(), "M");
            assert_eq!(comp, "D+M");
            assert!(jmp.is_none())
        }

        _ => {}
    }
}

#[test]
fn c_jmp_test() {
    let label = "M=D+M;JMP";
    let mut p = parser_of(&[label]);

    let res = p.advance();

    assert!(res.is_ok());

    let command = p.get_current().unwrap();

    match command {
        Command::CCommand { dest, comp, jmp } => {
            assert_eq!(dest.as_ref().unwrap(), "M");
            assert_eq!(comp, "D+M");
            assert_eq!(jmp.as_ref().unwrap(), "JMP")
        }

        _ => {}
    }
}

#[test]
fn c_jmp_no_dst_test() {
    let label = "0;JMP";
    let mut p = parser_of(&[label]);

    let res = p.advance();

    assert!(res.is_ok());

    let command = p.get_current().unwrap();

    match command {
        Command::CCommand { dest, comp, jmp } => {
            assert!(dest.is_none());
            assert_eq!(comp, "0");
            assert_eq!(jmp.as_ref().unwrap(), "JMP")
        }

        _ => {}
    }
}

#[test]
fn c_invalid_jmp() {
    let label = "0;LOL";
    let mut p = parser_of(&[label]);

    let res = p.advance();

    assert!(res.is_err());
}

#[test]
fn c_invalid_cmp() {
    let label = "M=3+1";
    let mut p = parser_of(&[label]);

    let res = p.advance();

    assert!(res.is_err());
}

#[test]
fn c_invalid_dst() {
    let label = "M+A=D+M";
    let mut p = parser_of(&[label]);

    let res = p.advance();

    assert!(res.is_err());
}

#[test]
fn errors_carry_text_and_line() {
    let mut p = parser_of(&["@1", "(LOOP)", "M+A=D+M"]);
    assert!(p.advance().is_ok());
    assert!(p.advance().is_ok());
    match p.advance() {
        Err(ParseError::InvalidDest(d, line)) => {
            assert_eq!(d, "+AM");
            assert_eq!(line, 2);
        }
        other => panic!("unexpected {:?}", other),
    }
}

#[test]
fn each_error_kind() {
    let cases: [(&str, fn(&ParseError) -> bool); 9] = [
        ("(123)", |e| matches!(e, ParseError::InvalidLabel(s, 0) if s == "123")),
        ("()", |e| matches!(e, ParseError::InvalidLabel(s, 0) if s.is_empty())),
        ("(open", |e| matches!(e, ParseError::InvalidLabel(s, 0) if s == "(open")),
        ("MM=D", |e| matches!(e, ParseError::InvalidDest(s, 0) if s == "MM")),
        ("0;LOL", |e| matches!(e, ParseError::InvalidJmp(s, 0) if s == "LOL")),
        ("M=3+1", |e| matches!(e, ParseError::InvalidCmp(s, 0) if s == "3+1")),
        ("X=1", |e| matches!(e, ParseError::InvalidCommand(s) if s == "X=1")),
        ("@32768", |e| matches!(e, ParseError::IntegerOverflow(32768, 0))),
        ("   ", |e| matches!(e, ParseError::EndOfFile)),
    ];
    for (line, check) in cases.iter() {
        let mut p = parser_of(&[line]);
        let res = p.advance();
        assert!(res.as_ref().map_err(|e| check(e)).err() == Some(true), "line {:?}: {:?}", line, res);
    }
}

#[test]
fn advance_past_end_is_end_of_file() {
    let mut p = parser_of(&[]);
    assert!(!p.has_more_commands());
    assert!(matches!(p.advance(), Err(ParseError::EndOfFile)));
}

#[test]
fn whitespace_is_removed_and_comments_skipped() {
    let mut p = parser_of(&["", "   // a comment", "  D = D + A ; JGT ", "\t"]);
    assert!(p.has_more_commands());
    assert!(p.advance().is_ok());
    match p.get_current().unwrap() {
        Command::CCommand { dest, comp, jmp } => {
            assert_eq!(dest.as_deref(), Some("D"));
            assert_eq!(comp, "D+A");
            assert_eq!(jmp.as_deref(), Some("JGT"));
        }
        _ => panic!("expected a compute instruction"),
    }
    assert!(!p.has_more_commands());
}

#[test]
fn address_forms() {
    let mut p = parser_of(&["@32767", "@0", "@+7", "@x1", "@-1"]);
    let expected = [
        Some(32767u16),
        Some(0),
        Some(7),
        None,
        None,
    ];
    for e in expected.iter() {
        assert!(p.advance().is_ok());
        match (p.get_current().unwrap(), e) {
            (Command::ACommand { symbol: Symbol::Decimal(d) }, Some(v)) => assert_eq!(d, v),
            (Command::ACommand { symbol: Symbol::Name(_) }, None) => {}
            (c, _) => panic!("unexpected {:?}", c),
        }
    }
}

#[test]
fn destination_is_sorted() {
    let mut p = parser_of(&["MD=1", "DM=1", "MAD=0"]);
    for d in ["DM", "DM", "ADM"].iter() {
        assert!(p.advance().is_ok());
        match p.get_current().unwrap() {
            Command::CCommand { dest, .. } => assert_eq!(dest.as_deref(), Some(*d)),
            c => panic!("unexpected {:?}", c),
        }
    }
}

#[test]
fn large_numerals_overflow() {
    let mut p = parser_of(&["@70000", "@32768", "@99999999999999999999"]);
    assert!(matches!(p.advance(), Err(ParseError::IntegerOverflow(65535, 0))));
    assert!(matches!(p.advance(), Err(ParseError::IntegerOverflow(32768, 0))));
    assert!(matches!(p.advance(), Err(ParseError::IntegerOverflow(65535, 0))));
}

#[test]
fn numeric_labels_of_any_size_rejected() {
    for l in ["(70000)", "(-5)", "(+12)", "(0)"].iter() {
        let mut p = parser_of(&[l]);
        assert!(matches!(p.advance(), Err(ParseError::InvalidLabel(_, 0))), "label {}", l);
    }
    let mut p = parser_of(&["(5x)"]);
    assert!(p.advance().is_ok());
}

#[test]
fn label_name_kept() {
    let mut p = parser_of(&["(hello)"]);
    assert!(p.advance().is_ok());
    match p.get_current().unwrap() {
        Command::LCommand { label } => assert_eq!(label, "hello"),
        c => panic!("unexpected {:?}", c),
    }
}
