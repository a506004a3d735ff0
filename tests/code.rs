use hacky::code::Code;

#[test]
fn test_comp() {
    assert_eq!(Code::comp("D+A"), Some("0000010"));
    assert_eq!(Code::comp("M"), Some("1110000"));
    assert_eq!(Code::comp("X"), None);
}

#[test]
fn test_dest() {
    assert_eq!(Code::dest("ADM"), Some("111"));
    assert_eq!(Code::dest("D"), Some("010"));
    assert_eq!(Code::dest("XYZ"), None);
}

#[test]
fn test_jump() {
    assert_eq!(Code::jump("JGT"), Some("001"));
    assert_eq!(Code::jump("JMP"), Some("111"));
    assert_eq!(Code::jump("INVALID"), None);
}

#[test]
fn comp_table_is_complete() {
    let table = [
        ("0", "0101010"),
        ("1", "0111111"),
        ("-1", "0111010"),
        ("D", "0001100"),
        ("A", "0110000"),
        ("!D", "0001101"),
        ("!A", "0110001"),
        ("-D", "0001111"),
        ("-A", "0110011"),
        ("D+1", "0011111"),
        ("A+1", "0110111"),
        ("D-1", "0001110"),
        ("A-1", "0110010"),
        ("D+A", "0000010"),
        ("D-A", "0010011"),
        ("A-D", "0000111"),
        ("D&A", "0000000"),
        ("D|A", "0010101"),
        ("M", "1110000"),
        ("!M", "1110001"),
        ("-M", "1110011"),
        ("M+1", "1110111"),
        ("M-1", "1110010"),
        ("D+M", "1000010"),
        ("D-M", "1010011"),
        ("M-D", "1000111"),
        ("D&M", "1000000"),
        ("D|M", "1010101"),
    ];
    for (m, bits) in table.iter() {
        assert_eq!(Code::comp(m), Some(*bits), "mnemonic {}", m);
    }
    for m in ["", "A+D", "M+D", "1+D", "d", "D+", "D+A ", "null", "2"].iter() {
        assert_eq!(Code::comp(m), None, "mnemonic {}", m);
    }
}

#[test]
fn dest_table_is_a_bitmask() {
    let table = [
        ("null", "000"),
        ("M", "001"),
        ("D", "010"),
        ("DM", "011"),
        ("A", "100"),
        ("AM", "101"),
        ("AD", "110"),
        ("ADM", "111"),
    ];
    for (m, bits) in table.iter() {
        assert_eq!(Code::dest(m), Some(*bits), "mnemonic {}", m);
    }
    for m in ["MD", "", "AA", "X", "NULL"].iter() {
        assert_eq!(Code::dest(m), None, "mnemonic {}", m);
    }
}

#[test]
fn jump_table_in_order() {
    let table = [
        ("null", "000"),
        ("JGT", "001"),
        ("JEQ", "010"),
        ("JGE", "011"),
        ("JLT", "100"),
        ("JNE", "101"),
        ("JLE", "110"),
        ("JMP", "111"),
    ];
    for (m, bits) in table.iter() {
        assert_eq!(Code::jump(m), Some(*bits), "mnemonic {}", m);
    }
    assert_eq!(Code::jump(""), None);
    assert_eq!(Code::jump("jmp"), None);
}
