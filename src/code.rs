use crate::text::{binary, chars_of, pow2, text_is};
use vstd::prelude::*;

verus! {

/// The position of a computation mnemonic in the machine's table of 28.
pub open spec fn comp_index(m: Seq<char>) -> Option<int> {
    if m == "0"@ {
        Some(0)
    } else if m == "1"@ {
        Some(1)
    } else if m == "-1"@ {
        Some(2)
    } else if m == "D"@ {
        Some(3)
    } else if m == "A"@ {
        Some(4)
    } else if m == "!D"@ {
        Some(5)
    } else if m == "!A"@ {
        Some(6)
    } else if m == "-D"@ {
        Some(7)
    } else if m == "-A"@ {
        Some(8)
    } else if m == "D+1"@ {
        Some(9)
    } else if m == "A+1"@ {
        Some(10)
    } else if m == "D-1"@ {
        Some(11)
    } else if m == "A-1"@ {
        Some(12)
    } else if m == "D+A"@ {
        Some(13)
    } else if m == "D-A"@ {
        Some(14)
    } else if m == "A-D"@ {
        Some(15)
    } else if m == "D&A"@ {
        Some(16)
    } else if m == "D|A"@ {
        Some(17)
    } else if m == "M"@ {
        Some(18)
    } else if m == "!M"@ {
        Some(19)
    } else if m == "-M"@ {
        Some(20)
    } else if m == "M+1"@ {
        Some(21)
    } else if m == "M-1"@ {
        Some(22)
    } else if m == "D+M"@ {
        Some(23)
    } else if m == "D-M"@ {
        Some(24)
    } else if m == "M-D"@ {
        Some(25)
    } else if m == "D&M"@ {
        Some(26)
    } else if m == "D|M"@ {
        Some(27)
    } else {
        None
    }
}

/// The 7-bit computation field (the `a` bit, then `c1` to `c6`) at each position of the
/// table.
pub open spec fn comp_field(i: int) -> Seq<char> {
    if i == 0 {
        "0101010"@
    } else if i == 1 {
        "0111111"@
    } else if i == 2 {
        "0111010"@
    } else if i == 3 {
        "0001100"@
    } else if i == 4 {
        "0110000"@
    } else if i == 5 {
        "0001101"@
    } else if i == 6 {
        "0110001"@
    } else if i == 7 {
        "0001111"@
    } else if i == 8 {
        "0110011"@
    } else if i == 9 {
        "0011111"@
    } else if i == 10 {
        "0110111"@
    } else if i == 11 {
        "0001110"@
    } else if i == 12 {
        "0110010"@
    } else if i == 13 {
        "0000010"@
    } else if i == 14 {
        "0010011"@
    } else if i == 15 {
        "0000111"@
    } else if i == 16 {
        "0000000"@
    } else if i == 17 {
        "0010101"@
    } else if i == 18 {
        "1110000"@
    } else if i == 19 {
        "1110001"@
    } else if i == 20 {
        "1110011"@
    } else if i == 21 {
        "1110111"@
    } else if i == 22 {
        "1110010"@
    } else if i == 23 {
        "1000010"@
    } else if i == 24 {
        "1010011"@
    } else if i == 25 {
        "1000111"@
    } else if i == 26 {
        "1000000"@
    } else {
        "1010101"@
    }
}

/// The position of a canonical destination mnemonic: its bits name A, D and M.
pub open spec fn dest_index(m: Seq<char>) -> Option<int> {
    if m == "null"@ {
        Some(0)
    } else if m == "M"@ {
        Some(1)
    } else if m == "D"@ {
        Some(2)
    } else if m == "DM"@ {
        Some(3)
    } else if m == "A"@ {
        Some(4)
    } else if m == "AM"@ {
        Some(5)
    } else if m == "AD"@ {
        Some(6)
    } else if m == "ADM"@ {
        Some(7)
    } else {
        None
    }
}

/// The position of a jump mnemonic: its bits name the less-than, equal and greater-than
/// conditions.
pub open spec fn jump_index(m: Seq<char>) -> Option<int> {
    if m == "null"@ {
        Some(0)
    } else if m == "JGT"@ {
        Some(1)
    } else if m == "JEQ"@ {
        Some(2)
    } else if m == "JGE"@ {
        Some(3)
    } else if m == "JLT"@ {
        Some(4)
    } else if m == "JNE"@ {
        Some(5)
    } else if m == "JLE"@ {
        Some(6)
    } else if m == "JMP"@ {
        Some(7)
    } else {
        None
    }
}

/// The 3-bit field at each position of the destination and jump tables.
pub open spec fn three_bit_field(i: int) -> Seq<char> {
    if i == 0 {
        "000"@
    } else if i == 1 {
        "001"@
    } else if i == 2 {
        "010"@
    } else if i == 3 {
        "011"@
    } else if i == 4 {
        "100"@
    } else if i == 5 {
        "101"@
    } else if i == 6 {
        "110"@
    } else {
        "111"@
    }
}

/// The computation field of mnemonic `m`, if it is one.
pub open spec fn comp_bits(m: Seq<char>) -> Option<Seq<char>> {
    match comp_index(m) {
        Some(i) => Some(comp_field(i)),
        None => None,
    }
}

/// The destination field of canonical destination mnemonic `m`, if it is one.
pub open spec fn dest_bits(m: Seq<char>) -> Option<Seq<char>> {
    match dest_index(m) {
        Some(i) => Some(three_bit_field(i)),
        None => None,
    }
}

/// The jump field of jump mnemonic `m`, if it is one.
pub open spec fn jump_bits(m: Seq<char>) -> Option<Seq<char>> {
    match jump_index(m) {
        Some(i) => Some(three_bit_field(i)),
        None => None,
    }
}

/// The instruction set's field encodings.
pub struct Code;

impl Code {
    /// The position of computation mnemonic `cmd` in the table.
    pub(crate) fn cmp_index(cmd: &str) -> (r: Option<usize>)
        ensures
            match r {
                Some(i) => comp_index(cmd@) == Some(i as int),
                None => comp_index(cmd@) is None,
            },
    {
        let c = chars_of(cmd);
        if text_is(&c, "0") {
            Some(0)
        } else if text_is(&c, "1") {
            Some(1)
        } else if text_is(&c, "-1") {
            Some(2)
        } else if text_is(&c, "D") {
            Some(3)
        } else if text_is(&c, "A") {
            Some(4)
        } else if text_is(&c, "!D") {
            Some(5)
        } else if text_is(&c, "!A") {
            Some(6)
        } else if text_is(&c, "-D") {
            Some(7)
        } else if text_is(&c, "-A") {
            Some(8)
        } else if text_is(&c, "D+1") {
            Some(9)
        } else if text_is(&c, "A+1") {
            Some(10)
        } else if text_is(&c, "D-1") {
            Some(11)
        } else if text_is(&c, "A-1") {
            Some(12)
        } else if text_is(&c, "D+A") {
            Some(13)
        } else if text_is(&c, "D-A") {
            Some(14)
        } else if text_is(&c, "A-D") {
            Some(15)
        } else if text_is(&c, "D&A") {
            Some(16)
        } else if text_is(&c, "D|A") {
            Some(17)
        } else if text_is(&c, "M") {
            Some(18)
        } else if text_is(&c, "!M") {
            Some(19)
        } else if text_is(&c, "-M") {
            Some(20)
        } else if text_is(&c, "M+1") {
            Some(21)
        } else if text_is(&c, "M-1") {
            Some(22)
        } else if text_is(&c, "D+M") {
            Some(23)
        } else if text_is(&c, "D-M") {
            Some(24)
        } else if text_is(&c, "M-D") {
            Some(25)
        } else if text_is(&c, "D&M") {
            Some(26)
        } else if text_is(&c, "D|M") {
            Some(27)
        } else {
            None
        }
    }

    /// The position of destination mnemonic `cmd` in the table.
    pub(crate) fn dst_index(cmd: &str) -> (r: Option<usize>)
        ensures
            match r {
                Some(i) => dest_index(cmd@) == Some(i as int),
                None => dest_index(cmd@) is None,
            },
    {
        let c = chars_of(cmd);
        if text_is(&c, "null") {
            Some(0)
        } else if text_is(&c, "M") {
            Some(1)
        } else if text_is(&c, "D") {
            Some(2)
        } else if text_is(&c, "DM") {
            Some(3)
        } else if text_is(&c, "A") {
            Some(4)
        } else if text_is(&c, "AM") {
            Some(5)
        } else if text_is(&c, "AD") {
            Some(6)
        } else if text_is(&c, "ADM") {
            Some(7)
        } else {
            None
        }
    }

    /// The position of jump mnemonic `cmd` in the table.
    pub(crate) fn jmp_index(cmd: &str) -> (r: Option<usize>)
        ensures
            match r {
                Some(i) => jump_index(cmd@) == Some(i as int),
                None => jump_index(cmd@) is None,
            },
    {
        let c = chars_of(cmd);
        if text_is(&c, "null") {
            Some(0)
        } else if text_is(&c, "JGT") {
            Some(1)
        } else if text_is(&c, "JEQ") {
            Some(2)
        } else if text_is(&c, "JGE") {
            Some(3)
        } else if text_is(&c, "JLT") {
            Some(4)
        } else if text_is(&c, "JNE") {
            Some(5)
        } else if text_is(&c, "JLE") {
            Some(6)
        } else if text_is(&c, "JMP") {
            Some(7)
        } else {
            None
        }
    }

    /// The 7-bit computation field of `cmd`, or `None` where `cmd` is no computation.
    pub fn comp(cmd: &str) -> (r: Option<&'static str>)
        ensures
            match r {
                Some(b) => comp_bits(cmd@) == Some(b@),
                None => comp_bits(cmd@) is None,
            },
    {
        match Self::cmp_index(cmd) {
            Some(i) => Some(
                if i == 0 {
                    "0101010"
                } else if i == 1 {
                    "0111111"
                } else if i == 2 {
                    "0111010"
                } else if i == 3 {
                    "0001100"
                } else if i == 4 {
                    "0110000"
                } else if i == 5 {
                    "0001101"
                } else if i == 6 {
                    "0110001"
                } else if i == 7 {
                    "0001111"
                } else if i == 8 {
                    "0110011"
                } else if i == 9 {
                    "0011111"
                } else if i == 10 {
                    "0110111"
                } else if i == 11 {
                    "0001110"
                } else if i == 12 {
                    "0110010"
                } else if i == 13 {
                    "0000010"
                } else if i == 14 {
                    "0010011"
                } else if i == 15 {
                    "0000111"
                } else if i == 16 {
                    "0000000"
                } else if i == 17 {
                    "0010101"
                } else if i == 18 {
                    "1110000"
                } else if i == 19 {
                    "1110001"
                } else if i == 20 {
                    "1110011"
                } else if i == 21 {
                    "1110111"
                } else if i == 22 {
                    "1110010"
                } else if i == 23 {
                    "1000010"
                } else if i == 24 {
                    "1010011"
                } else if i == 25 {
                    "1000111"
                } else if i == 26 {
                    "1000000"
                } else {
                    "1010101"
                }
            ),
            None => None,
        }
    }

    /// The 3-bit destination field of `cmd` (`null`, or a canonical destination set), or
    /// `None`.
    pub fn dest(cmd: &str) -> (r: Option<&'static str>)
        ensures
            match r {
                Some(b) => dest_bits(cmd@) == Some(b@),
                None => dest_bits(cmd@) is None,
            },
    {
        match Self::dst_index(cmd) {
            Some(i) => Some(
                if i == 0 {
                    "000"
                } else if i == 1 {
                    "001"
                } else if i == 2 {
                    "010"
                } else if i == 3 {
                    "011"
                } else if i == 4 {
                    "100"
                } else if i == 5 {
                    "101"
                } else if i == 6 {
                    "110"
                } else {
                    "111"
                }
            ),
            None => None,
        }
    }

    /// The 3-bit jump field of `cmd` (`null`, or a jump condition), or `None`.
    pub fn jump(cmd: &str) -> (r: Option<&'static str>)
        ensures
            match r {
                Some(b) => jump_bits(cmd@) == Some(b@),
                None => jump_bits(cmd@) is None,
            },
    {
        match Self::jmp_index(cmd) {
            Some(i) => Some(
                if i == 0 {
                    "000"
                } else if i == 1 {
                    "001"
                } else if i == 2 {
                    "010"
                } else if i == 3 {
                    "011"
                } else if i == 4 {
                    "100"
                } else if i == 5 {
                    "101"
                } else if i == 6 {
                    "110"
                } else {
                    "111"
                }
            ),
            None => None,
        }
    }
}

/// The destination and jump fields are the binary form of the mnemonic's position in
/// its table, so that the eight mnemonics of each table take the eight 3-bit patterns,
/// one each; and a destination's bits, most significant first, say whether it holds
/// A, D and M.
pub proof fn lemma_three_bit_fields(m: Seq<char>)
    ensures
        dest_index(m) matches Some(i) ==> 0 <= i < 8 && three_bit_field(i) == binary(i as nat, 3),
        jump_index(m) matches Some(i) ==> 0 <= i < 8 && three_bit_field(i) == binary(i as nat, 3),
        dest_bits(m) matches Some(b) ==> b.len() == 3 && (m != "null"@ ==> {
            &&& (b[0] == '1' <==> m.contains('A'))
            &&& (b[1] == '1' <==> m.contains('D'))
            &&& (b[2] == '1' <==> m.contains('M'))
        }),
{
    reveal_strlit("null");
    reveal_strlit("M");
    reveal_strlit("D");
    reveal_strlit("DM");
    reveal_strlit("A");
    reveal_strlit("AM");
    reveal_strlit("AD");
    reveal_strlit("ADM");
    reveal_strlit("000");
    reveal_strlit("001");
    reveal_strlit("010");
    reveal_strlit("011");
    reveal_strlit("100");
    reveal_strlit("101");
    reveal_strlit("110");
    reveal_strlit("111");
    assert forall|i: int| 0 <= i < 8 implies three_bit_field(i) == binary(i as nat, 3) by {
        reveal_with_fuel(binary, 4);
        assert(pow2(2) == 4 && pow2(1) == 2 && pow2(0) == 1) by {
            reveal_with_fuel(pow2, 3);
        }
        assert(binary(i as nat, 3) =~= three_bit_field(i));
    }
    if dest_bits(m) is Some && m != "null"@ {
        let b = dest_bits(m).unwrap();
        if m == "M"@ {
            assert(m.len() == 1);
            assert(m[0] == 'M');
            assert(forall|k: int| 0 <= k < m.len() ==> m[k] != 'A');
            assert(forall|k: int| 0 <= k < m.len() ==> m[k] != 'D');
        } else if m == "D"@ {
            assert(m.len() == 1);
            assert(m[0] == 'D');
            assert(forall|k: int| 0 <= k < m.len() ==> m[k] != 'A');
            assert(forall|k: int| 0 <= k < m.len() ==> m[k] != 'M');
        } else if m == "DM"@ {
            assert(m.len() == 2);
            assert(m[0] == 'D');
            assert(m[1] == 'M');
            assert(forall|k: int| 0 <= k < m.len() ==> m[k] != 'A');
        } else if m == "A"@ {
            assert(m.len() == 1);
            assert(m[0] == 'A');
            assert(forall|k: int| 0 <= k < m.len() ==> m[k] != 'D');
            assert(forall|k: int| 0 <= k < m.len() ==> m[k] != 'M');
        } else if m == "AM"@ {
            assert(m.len() == 2);
            assert(m[0] == 'A');
            assert(m[1] == 'M');
            assert(forall|k: int| 0 <= k < m.len() ==> m[k] != 'D');
        } else if m == "AD"@ {
            assert(m.len() == 2);
            assert(m[0] == 'A');
            assert(m[1] == 'D');
            assert(forall|k: int| 0 <= k < m.len() ==> m[k] != 'M');
        } else if m == "ADM"@ {
            assert(m.len() == 3);
            assert(m[0] == 'A');
            assert(m[1] == 'D');
            assert(m[2] == 'M');
        }
    }
}

/// Every computation field is seven binary digits, and the tables answer only for
/// their own mnemonics.
pub proof fn lemma_comp_fields(m: Seq<char>)
    ensures
        comp_bits(m) matches Some(b) ==> b.len() == 7 && forall|k: int|
            0 <= k < 7 ==> b[k] == '0' || b[k] == '1',
        comp_bits(m) is Some <==> comp_index(m) is Some,
        dest_bits(m) is Some <==> dest_index(m) is Some,
        jump_bits(m) is Some <==> jump_index(m) is Some,
{
    if let Some(i) = comp_index(m) {
        reveal_strlit("0101010");
        reveal_strlit("0111111");
        reveal_strlit("0111010");
        reveal_strlit("0001100");
        reveal_strlit("0110000");
        reveal_strlit("0001101");
        reveal_strlit("0110001");
        reveal_strlit("0001111");
        reveal_strlit("0110011");
        reveal_strlit("0011111");
        reveal_strlit("0110111");
        reveal_strlit("0001110");
        reveal_strlit("0110010");
        reveal_strlit("0000010");
        reveal_strlit("0010011");
        reveal_strlit("0000111");
        reveal_strlit("0000000");
        reveal_strlit("0010101");
        reveal_strlit("1110000");
        reveal_strlit("1110001");
        reveal_strlit("1110011");
        reveal_strlit("1110111");
        reveal_strlit("1110010");
        reveal_strlit("1000010");
        reveal_strlit("1010011");
        reveal_strlit("1000111");
        reveal_strlit("1000000");
        reveal_strlit("1010101");
    }
}

} // verus!
