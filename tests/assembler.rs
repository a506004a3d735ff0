use hacky::parser::ParseError;
use hacky::symbol::{create_table, SymbolError};
use hacky::Assembler;

fn lines(src: &[&str]) -> Vec<String> {
    src.iter().map(|l| l.to_string()).collect()
}

fn assemble(src: &[&str]) -> Result<Vec<String>, ParseError> {
    let mut a = Assembler::new(lines(src)).expect("symbol table");
    a.assemble()
}

#[test]
fn adds_two_and_three() {
    let out = assemble(&["@2", "D=A", "@3", "D=D+A", "@0", "M=D"]).unwrap();
    assert_eq!(
        out,
        vec![
            "0000000000000010",
            "1110110000010000",
            "0000000000000011",
            "1110000010010000",
            "0000000000000000",
            "1110001100001000",
        ]
    );
}

#[test]
fn predefined_symbols_resolve() {
    let out = assemble(&["@SCREEN", "@R3", "@KBD", "@THAT", "@R15"]).unwrap();
    assert_eq!(
        out,
        vec![
            "0100000000000000",
            "0000000000000011",
            "0110000000000000",
            "0000000000000100",
            "0000000000001111",
        ]
    );
}

#[test]
fn variables_from_sixteen_in_order() {
    let out = assemble(&["@foo", "@bar", "@foo", "@bar"]).unwrap();
    assert_eq!(
        out,
        vec![
            "0000000000010000",
            "0000000000010001",
            "0000000000010000",
            "0000000000010001",
        ]
    );
    let t = create_table(&lines(&["@foo", "@bar", "@foo", "@bar"])).unwrap();
    assert_eq!(t.get("foo"), Some(16));
    assert_eq!(t.get("bar"), Some(17));
    assert_eq!(t.get("baz"), None);
}

#[test]
fn labels_take_no_space() {
    let src = [
        "// count down",
        "@3",
        "D=A",
        "(LOOP)",
        "D=D-1;JGT",
        "(END)",
        "",
        "@END",
        "0;JMP",
        "@LOOP",
    ];
    let out = assemble(&src).unwrap();
    assert_eq!(
        out,
        vec![
            "0000000000000011",
            "1110110000010000",
            "1110001110010001",
            "0000000000000011",
            "1110101010000111",
            "0000000000000010",
        ]
    );
    let t = create_table(&lines(&src)).unwrap();
    assert_eq!(t.get("LOOP"), Some(2));
    assert_eq!(t.get("END"), Some(3));
}

#[test]
fn label_then_variable_are_distinct() {
    let out = assemble(&["(START)", "@i", "@START", "@j", "@i"]).unwrap();
    assert_eq!(
        out,
        vec![
            "0000000000010000",
            "0000000000000000",
            "0000000000010001",
            "0000000000010000",
        ]
    );
}

#[test]
fn address_bounds() {
    let out = assemble(&["@32767", "@0", "@1"]).unwrap();
    assert_eq!(
        out,
        vec!["0111111111111111", "0000000000000000", "0000000000000001"]
    );
    assert!(matches!(
        assemble(&["@1", "@32768"]),
        Err(ParseError::IntegerOverflow(32768, 1))
    ));
    assert!(matches!(
        assemble(&["@65535"]),
        Err(ParseError::IntegerOverflow(65535, 0))
    ));
    assert!(matches!(
        assemble(&["@70000"]),
        Err(ParseError::IntegerOverflow(65535, 0))
    ));
    let t = create_table(&lines(&["@70000", "@x"])).unwrap();
    assert_eq!(t.get("70000"), None);
    assert_eq!(t.get("x"), Some(16));
}

#[test]
fn destinations_in_any_order() {
    let a = assemble(&["MD=D+1"]).unwrap();
    let b = assemble(&["DM=D+1"]).unwrap();
    assert_eq!(a, b);
    assert_eq!(a, vec!["1110011111011000"]);
    let c = assemble(&["MDA=0"]).unwrap();
    assert_eq!(c, vec!["1110101010111000"]);
}

#[test]
fn malformed_lines_fail_the_run() {
    assert!(matches!(assemble(&["@1", "M+A=D+M"]), Err(ParseError::InvalidDest(_, 1))));
    assert!(matches!(assemble(&["M=3+1"]), Err(ParseError::InvalidCmp(_, 0))));
    assert!(matches!(assemble(&["0;LOL"]), Err(ParseError::InvalidJmp(_, 0))));
    assert!(matches!(assemble(&["(123)"]), Err(ParseError::InvalidLabel(_, 0))));
    assert!(matches!(assemble(&["+1"]), Err(ParseError::InvalidCommand(_))));
    assert_eq!(assemble(&["(hello)"]).unwrap(), Vec::<String>::new());
}

#[test]
fn empty_source() {
    assert_eq!(assemble(&[]).unwrap(), Vec::<String>::new());
    assert_eq!(assemble(&["", "// nothing", "   "]).unwrap(), Vec::<String>::new());
}

#[test]
fn compute_with_memory_and_jump() {
    let out = assemble(&["AM=M+1;JNE", "D;JLE", "A=!A"]).unwrap();
    assert_eq!(
        out,
        vec!["1111110111101101", "1110001100000110", "1110110001100000"]
    );
}

#[test]
fn later_label_definition_wins() {
    let t = create_table(&lines(&["(X)", "@0", "(X)", "@X"])).unwrap();
    assert_eq!(t.get("X"), Some(1));
    assert_eq!(t.get("SP"), Some(0));
    assert!(create_table(&lines(&[])).is_ok());
}

#[test]
fn label_beyond_sixteen_bits_is_out_of_bounds() {
    let mut src: Vec<String> = (0..65535).map(|_| "D=A".to_string()).collect();
    src.push("(LAST)".to_string());
    let t = create_table(&src).unwrap();
    assert_eq!(t.get("LAST"), Some(65535));
    src.push("D=A".to_string());
    src.push("(PAST)".to_string());
    assert!(matches!(create_table(&src), Err(SymbolError::OutofBoundsAddress)));
    assert!(matches!(Assembler::new(src), Err(SymbolError::OutofBoundsAddress)));
}
