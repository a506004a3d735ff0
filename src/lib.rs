//! An assembler for a 16-bit machine: symbolic instructions in, one line of sixteen
//! binary digits out per instruction.
use vstd::prelude::*;

pub mod code;
pub mod parser;
pub mod symbol;
pub mod text;

use crate::code::{comp_bits, dest_bits, jump_bits, Code};
use crate::parser::{
    opt_view, parse_command, Command, CommandModel, ErrorModel, ParseError, Parser, Symbol,
    SymbolModel,
};
use crate::symbol::{
    create_table, label_pass, label_text, predefined, reference, symbol_table, texts, variable_pass,
    SymbolError, SymbolTable,
};
use crate::text::{binary, binary16, chars_of, decimal, lemma_decimal, is_skipped, pow2, string_of, strip_white};

verus! {

/// A field of a compute instruction, or `000` where the instruction leaves it out.
pub open spec fn field_or_zero(o: Option<Seq<char>>) -> Seq<char> {
    match o {
        Some(b) => b,
        None => seq!['0', '0', '0'],
    }
}

pub open spec fn dest_field(dest: Option<Seq<char>>) -> Seq<char> {
    match dest {
        Some(d) => field_or_zero(dest_bits(d)),
        None => field_or_zero(None),
    }
}

pub open spec fn jump_field(jmp: Option<Seq<char>>) -> Seq<char> {
    match jmp {
        Some(j) => field_or_zero(jump_bits(j)),
        None => field_or_zero(None),
    }
}

/// The machine instruction for `c`, or `None` for a label, which takes no space. A name
/// without an address would give `None` too; an `Assembler`'s table holds every name its
/// source refers to, so that this never happens there.
pub open spec fn encode(c: CommandModel, table: Map<Seq<char>, u16>) -> Option<Seq<char>> {
    match c {
        CommandModel::Address(SymbolModel::Decimal(v)) => Some(binary(v as nat, 16)),
        CommandModel::Address(SymbolModel::Name(n)) => if table.contains_key(n) {
            Some(binary(table[n] as nat, 16))
        } else {
            None
        },
        CommandModel::Compute { dest, comp, jmp } => Some(
            seq!['1', '1', '1'] + comp_bits(comp).unwrap() + dest_field(dest) + jump_field(jmp),
        ),
        CommandModel::Label(_) => None,
    }
}

/// Translates `lines` with `table`, the first instruction being number `first`: the
/// machine code so far and the number of instructions read, or the first error.
pub open spec fn run(lines: Seq<Seq<char>>, first: u32, table: Map<Seq<char>, u16>) -> Result<
    (Seq<Seq<char>>, u32),
    ErrorModel,
>
    decreases lines.len(),
{
    if lines.len() == 0 {
        Ok((Seq::empty(), first))
    } else {
        match run(lines.drop_last(), first, table) {
            Err(e) => Err(e),
            Ok((out, n)) => if is_skipped(lines.last()) {
                Ok((out, n))
            } else {
                match parse_command(strip_white(lines.last()), n) {
                    Err(e) => Err(e),
                    Ok(c) => Ok(
                        (
                            match encode(c, table) {
                                Some(x) => out.push(x),
                                None => out,
                            },
                            (n + 1) as u32,
                        ),
                    ),
                }
            },
        }
    }
}

/// Every name that an address instruction of `lines` refers to has an address in `table`.
pub open spec fn resolves_all(lines: Seq<Seq<char>>, table: Map<Seq<char>, u16>) -> bool {
    forall|i: int|
        0 <= i < lines.len() && !is_skipped(lines[i]) ==> (reference(strip_white(#[trigger] lines[i]))
            matches Some(n) ==> table.contains_key(n))
}

/// Assembles a source: builds its symbol table, then translates it line by line.
pub struct Assembler {
    pub symbols: SymbolTable,
    pub parser: Parser,
}

impl Assembler {
    pub open spec fn wf(&self) -> bool {
        &&& self.symbols.wf()
        &&& self.parser.wf()
        &&& resolves_all(texts(self.parser.lines@), self.symbols@)
    }

    /// The source that is left to translate.
    pub open spec fn rest(&self) -> Seq<Seq<char>> {
        texts(self.parser.lines@).subrange(self.parser.pos as int, self.parser.lines.len() as int)
    }

    pub fn new(lines: Vec<String>) -> (r: Result<Self, SymbolError>)
        requires
            lines.len() <= u32::MAX,
        ensures
            match r {
                Ok(a) => {
                    &&& a.wf()
                    &&& symbol_table(texts(lines@)) == Some(a.symbols@)
                    &&& a.parser.lines@ == lines@
                    &&& a.parser.pos == 0
                    &&& a.parser.line_num == 0
                    &&& a.parser.current is None
                },
                Err(e) => symbol_table(texts(lines@)) is None && e is OutofBoundsAddress,
            },
    {
        let symbols = match create_table(&lines) {
            Ok(t) => t,
            Err(e) => return Err(e),
        };
        proof {
            let src = texts(lines@);
            let t = label_pass(src).unwrap().0;
            lemma_variable_pass_resolves(src, t);
        }
        Ok(Assembler { symbols, parser: Parser::new(lines) })
    }

    /// Translates what is left of the source: one line of machine code per address or
    /// compute instruction, in order, or the first error.
    pub fn assemble(&mut self) -> (r: Result<Vec<String>, ParseError>)
        requires
            old(self).wf(),
        ensures
            final(self).wf(),
            match r {
                Ok(out) => run(old(self).rest(), old(self).parser.line_num, old(self).symbols@) matches Ok(
                    (o, _),
                ) && texts(out@) == o,
                Err(e) => run(old(self).rest(), old(self).parser.line_num, old(self).symbols@) matches Err(
                    x,
                ) && x == e@,
            },
    {
        let ghost src = texts(self.parser.lines@);
        let ghost start = self.parser.pos as int;
        let ghost first = self.parser.line_num;
        let ghost table = self.symbols@;
        let ghost len = self.parser.lines.len() as int;
        let mut out: Vec<String> = Vec::new();
        proof {
            assert(src.len() == len);
            assert(src.subrange(start, start) =~= Seq::<Seq<char>>::empty());
            assert(texts(out@) =~= Seq::<Seq<char>>::empty());
        }
        loop
            invariant
                self.wf(),
                src == texts(self.parser.lines@),
                len == self.parser.lines.len(),
                src.len() == len,
                table == self.symbols@,
                0 <= start <= self.parser.pos,
                old(self).rest() == src.subrange(start, len),
                first == old(self).parser.line_num,
                table == old(self).symbols@,
                run(src.subrange(start, self.parser.pos as int), first, table) == Ok::<_, ErrorModel>(
                    (texts(out@), self.parser.line_num),
                ),
            ensures
                self.wf(),
                self.parser.pos == len,
                run(src.subrange(start, len), first, table) == Ok::<_, ErrorModel>((texts(out@), self.parser.line_num)),
            decreases len - self.parser.pos,
        {
            let ghost p0 = self.parser.pos as int;
            let more = self.parser.has_more_commands();
            proof {
                lemma_run_skips(src, start, p0, self.parser.pos as int, first, table);
            }
            if !more {
                break;
            }
            let ghost p = self.parser.pos as int;
            let ghost n = self.parser.line_num;
            proof {
                assert(src[p] == self.parser.lines@[p]@);
            }
            match self.parser.advance() {
                Ok(()) => {},
                Err(e) => {
                    proof {
                        lemma_run_next(src, start, p, first, table);
                        lemma_run_fails(src, start, p + 1, first, table);
                    }
                    return Err(e);
                },
            }
            let ghost c = parse_command(strip_white(src[p]), n)->Ok_0;
            let ghost out0 = texts(out@);
            proof {
                lemma_run_next(src, start, p, first, table);
            }
            match self.parser.get_current() {
                Some(Command::ACommand { symbol: Symbol::Decimal(d) }) => {
                    out.push(string_of(&binary16(*d)));
                },
                Some(Command::ACommand { symbol: Symbol::Name(name) }) => {
                    assert(reference(strip_white(src[p])) == Some(name@));
                    match self.symbols.get(name.as_str()) {
                        Some(a) => {
                            out.push(string_of(&binary16(a)));
                        },
                        None => {
                            assert(false);
                        },
                    }
                },
                Some(Command::CCommand { dest, comp, jmp }) => {
                    out.push(encode_compute(dest, comp, jmp));
                },
                _ => {},
            }
            proof {
                assert(texts(out@) =~= match encode(c, table) {
                    Some(x) => out0.push(x),
                    None => out0,
                });
            }
        }
        Ok(out)
    }
}

/// The machine instruction for `dest=comp;jmp`.
fn encode_compute(dest: &Option<String>, comp: &String, jmp: &Option<String>) -> (r: String)
    requires
        comp_bits(comp@) is Some,
    ensures
        r@ == seq!['1', '1', '1'] + comp_bits(comp@).unwrap() + dest_field(opt_view(*dest))
            + jump_field(opt_view(*jmp)),
{
    let mut line: Vec<char> = Vec::new();
    line.push('1');
    line.push('1');
    line.push('1');
    let c_bits = match Code::comp(comp.as_str()) {
        Some(b) => b,
        None => "",
    };
    let d_bits = match dest {
        Some(d) => match Code::dest(d.as_str()) {
            Some(b) => b,
            None => "000",
        },
        None => "000",
    };
    let j_bits = match jmp {
        Some(j) => match Code::jump(j.as_str()) {
            Some(b) => b,
            None => "000",
        },
        None => "000",
    };
    proof {
        reveal_strlit("000");
        assert("000"@ =~= seq!['0', '0', '0']);
    }
    let mut cc = chars_of(c_bits);
    line.append(&mut cc);
    let mut dc = chars_of(d_bits);
    line.append(&mut dc);
    let mut jc = chars_of(j_bits);
    line.append(&mut jc);
    assert(line@ =~= seq!['1', '1', '1'] + c_bits@ + d_bits@ + j_bits@);
    string_of(&line)
}

/// One more instruction line, translated.
proof fn lemma_run_next(src: Seq<Seq<char>>, start: int, p: int, first: u32, table: Map<Seq<char>, u16>)
    requires
        0 <= start <= p < src.len(),
        !is_skipped(src[p]),
    ensures
        run(src.subrange(start, p + 1), first, table) == match run(src.subrange(start, p), first, table) {
            Err(e) => Err(e),
            Ok((out, n)) => match parse_command(strip_white(src[p]), n) {
                Err(e) => Err(e),
                Ok(c) => Ok(
                    (
                        match encode(c, table) {
                            Some(x) => out.push(x),
                            None => out,
                        },
                        (n + 1) as u32,
                    ),
                ),
            },
        },
{
    assert(src.subrange(start, p + 1).drop_last() =~= src.subrange(start, p));
}

/// An address instruction with a value below 32768 is a `0` followed by the value in
/// fifteen binary digits.
pub proof fn lemma_address_encoding(v: u16, table: Map<Seq<char>, u16>)
    requires
        v < 32768,
    ensures
        encode(CommandModel::Address(SymbolModel::Decimal(v)), table) == Some(
            seq!['0'] + binary(v as nat, 15),
        ),
{
    assert(pow2(15) == 32768) by {
        reveal_with_fuel(pow2, 16);
    }
    assert(v as nat / 32768 == 0 && v as nat % 32768 == v as nat);
}

/// An address instruction that writes a number below 32768 in decimal loads that
/// number, and is a `0` followed by the number in fifteen binary digits.
pub proof fn lemma_address_text(n: u16, line: u32, table: Map<Seq<char>, u16>)
    requires
        n < 32768,
    ensures
        parse_command(seq!['@'] + decimal(n as nat), line) == Ok::<CommandModel, ErrorModel>(
            CommandModel::Address(SymbolModel::Decimal(n)),
        ),
        encode(CommandModel::Address(SymbolModel::Decimal(n)), table) == Some(
            seq!['0'] + binary(n as nat, 15),
        ),
{
    lemma_decimal(n as nat);
    assert((seq!['@'] + decimal(n as nat)).drop_first() =~= decimal(n as nat));
    lemma_address_encoding(n, table);
}

/// A predefined name that no label of the source redefines keeps its address in the
/// source's symbol table.
pub proof fn lemma_predefined_kept(lines: Seq<Seq<char>>, name: Seq<char>)
    requires
        predefined().contains_key(name),
        forall|i: int|
            0 <= i < lines.len() && !is_skipped(lines[i]) && strip_white(lines[i]).len() > 0
                && strip_white(lines[i])[0] == '(' ==> label_text(strip_white(#[trigger] lines[i]))
                != name,
    ensures
        symbol_table(lines) matches Some(t) ==> t.contains_key(name) && t[name]
            == predefined()[name],
{
    lemma_label_pass_keeps(lines, name);
    if let Some((t, _)) = label_pass(lines) {
        lemma_variable_pass_keeps(lines, t);
    }
}

/// The label pass changes no name that no label of the source defines.
proof fn lemma_label_pass_keeps(lines: Seq<Seq<char>>, name: Seq<char>)
    requires
        forall|i: int|
            0 <= i < lines.len() && !is_skipped(lines[i]) && strip_white(lines[i]).len() > 0
                && strip_white(lines[i])[0] == '(' ==> label_text(strip_white(#[trigger] lines[i]))
                != name,
    ensures
        label_pass(lines) matches Some((t, _)) ==> t.contains_key(name) == predefined().contains_key(
            name,
        ) && (t.contains_key(name) ==> t[name] == predefined()[name]),
    decreases lines.len(),
{
    if lines.len() > 0 {
        let prev = lines.drop_last();
        assert forall|i: int|
            0 <= i < prev.len() && !is_skipped(prev[i]) && strip_white(prev[i]).len() > 0
                && strip_white(prev[i])[0] == '(' implies label_text(strip_white(#[trigger] prev[i]))
                != name by {
            assert(prev[i] == lines[i]);
        }
        lemma_label_pass_keeps(prev, name);
        assert(lines[lines.len() - 1] == lines.last());
    }
}

/// Whether a line holds an address or compute instruction: it is neither blank, a
/// comment, nor a label definition.
pub open spec fn is_instruction(l: Seq<char>) -> bool {
    !is_skipped(l) && !(strip_white(l).len() > 0 && strip_white(l)[0] == '(')
}

/// How many lines of `lines` hold an address or compute instruction.
pub open spec fn instruction_count(lines: Seq<Seq<char>>) -> nat
    decreases lines.len(),
{
    if lines.len() == 0 {
        0
    } else {
        instruction_count(lines.drop_last()) + if is_instruction(lines.last()) {
            1nat
        } else {
            0nat
        }
    }
}

/// Labels take no space: where every name resolves, a source translates to one line per
/// address or compute instruction, so that the instruction after a label lands at the
/// label's address.
pub proof fn lemma_output_count(lines: Seq<Seq<char>>, table: Map<Seq<char>, u16>)
    requires
        resolves_all(lines, table),
    ensures
        run(lines, 0, table) matches Ok((out, _)) ==> out.len() == instruction_count(lines),
    decreases lines.len(),
{
    if lines.len() > 0 {
        let prev = lines.drop_last();
        assert(resolves_all(prev, table)) by {
            assert forall|i: int| 0 <= i < prev.len() && !is_skipped(prev[i]) implies (reference(
                strip_white(#[trigger] prev[i]),
            ) matches Some(n) ==> table.contains_key(n)) by {
                assert(prev[i] == lines[i]);
            }
        }
        lemma_output_count(prev, table);
        let l = lines.last();
        assert(lines[lines.len() - 1] == l);
    }
}

/// A label's address is the number of address and compute instructions before it,
/// where no later line defines the same label.
pub proof fn lemma_label_address(lines: Seq<Seq<char>>, i: int)
    requires
        0 <= i < lines.len(),
        !is_skipped(lines[i]),
        strip_white(lines[i]).len() > 0 && strip_white(lines[i])[0] == '(',
        label_pass(lines) is Some,
        forall|j: int|
            i < j < lines.len() && !is_skipped(lines[j]) && strip_white(lines[j]).len() > 0
                && strip_white(lines[j])[0] == '(' ==> label_text(strip_white(#[trigger] lines[j]))
                != label_text(strip_white(lines[i])),
    ensures
        ({
            let name = label_text(strip_white(lines[i]));
            &&& label_pass(lines)->Some_0.0.contains_key(name)
            &&& label_pass(lines)->Some_0.0[name] == instruction_count(lines.subrange(0, i))
            &&& symbol_table(lines) matches Some(t) ==> t.contains_key(name) && t[name]
                == instruction_count(lines.subrange(0, i))
        }),
{
    lemma_label_pass_address(lines, i);
    let t = label_pass(lines)->Some_0.0;
    lemma_variable_pass_keeps(lines, t);
}

proof fn lemma_label_pass_address(lines: Seq<Seq<char>>, i: int)
    requires
        0 <= i < lines.len(),
        !is_skipped(lines[i]),
        strip_white(lines[i]).len() > 0 && strip_white(lines[i])[0] == '(',
        label_pass(lines) is Some,
        forall|j: int|
            i < j < lines.len() && !is_skipped(lines[j]) && strip_white(lines[j]).len() > 0
                && strip_white(lines[j])[0] == '(' ==> label_text(strip_white(#[trigger] lines[j]))
                != label_text(strip_white(lines[i])),
    ensures
        label_pass(lines)->Some_0.0.contains_key(label_text(strip_white(lines[i]))),
        label_pass(lines)->Some_0.0[label_text(strip_white(lines[i]))] == instruction_count(
            lines.subrange(0, i),
        ),
    decreases lines.len(),
{
    let name = label_text(strip_white(lines[i]));
    let prev = lines.drop_last();
    lemma_label_pass_count(lines);
    lemma_label_pass_count(prev);
    let (tp, pcp) = label_pass(prev)->Some_0;
    let (t, pc) = label_pass(lines)->Some_0;
    let j = lines.len() - 1;
    assert(lines[j] == lines.last());
    if i == j {
        assert(prev =~= lines.subrange(0, i));
        assert(t == tp.insert(name, pcp as u16));
    } else {
        assert(prev[i] == lines[i]);
        assert forall|k: int|
            i < k < prev.len() && !is_skipped(prev[k]) && strip_white(prev[k]).len() > 0
                && strip_white(prev[k])[0] == '(' implies label_text(strip_white(#[trigger] prev[k]))
                != name by {
            assert(prev[k] == lines[k]);
        }
        assert(prev.subrange(0, i) =~= lines.subrange(0, i));
        lemma_label_pass_address(prev, i);
        if !is_skipped(lines[j]) && strip_white(lines[j]).len() > 0 && strip_white(lines[j])[0]
            == '(' {
            assert(label_text(strip_white(lines[j])) != name);
            assert(t == tp.insert(label_text(strip_white(lines[j])), pcp as u16));
        } else {
            assert(t == tp);
        }
    }
}

/// The label pass counts the instruction lines it reads, and fails on no prefix of a
/// source it succeeds on.
proof fn lemma_label_pass_count(lines: Seq<Seq<char>>)
    ensures
        label_pass(lines) matches Some((_, pc)) ==> pc == instruction_count(lines) && (lines.len()
            > 0 ==> label_pass(lines.drop_last()) is Some),
    decreases lines.len(),
{
    if lines.len() > 0 {
        lemma_label_pass_count(lines.drop_last());
    }
}

/// The variable pass gives no new address to a name that has one.
proof fn lemma_variable_pass_keeps(lines: Seq<Seq<char>>, base: Map<Seq<char>, u16>)
    ensures
        variable_pass(lines, base) matches Some((t, _)) ==> forall|n: Seq<char>|
            #[trigger] base.contains_key(n) ==> t.contains_key(n) && t[n] == base[n],
    decreases lines.len(),
{
    if lines.len() > 0 {
        lemma_variable_pass_keeps(lines.drop_last(), base);
    }
}

/// Lines that hold no instruction change nothing in a translation.
proof fn lemma_run_skips(
    src: Seq<Seq<char>>,
    start: int,
    p: int,
    q: int,
    first: u32,
    table: Map<Seq<char>, u16>,
)
    requires
        0 <= start <= p <= q <= src.len(),
        forall|i: int| p <= i < q ==> is_skipped(#[trigger] src[i]),
    ensures
        run(src.subrange(start, q), first, table) == run(src.subrange(start, p), first, table),
    decreases q - p,
{
    if q > p {
        assert(src.subrange(start, q).drop_last() =~= src.subrange(start, q - 1));
        lemma_run_skips(src, start, p, q - 1, first, table);
    }
}

/// A translation that fails on a prefix of the source fails, with the same error, on
/// the whole of it.
proof fn lemma_run_fails(src: Seq<Seq<char>>, start: int, k: int, first: u32, table: Map<Seq<char>, u16>)
    requires
        0 <= start <= k <= src.len(),
        run(src.subrange(start, k), first, table) is Err,
    ensures
        run(src.subrange(start, src.len() as int), first, table) == run(src.subrange(start, k), first, table),
    decreases src.len() - k,
{
    if k < src.len() {
        assert(src.subrange(start, k + 1).drop_last() =~= src.subrange(start, k));
        lemma_run_fails(src, start, k + 1, first, table);
    }
}

/// The variable pass gives an address to every name that the source refers to.
pub proof fn lemma_variable_pass_resolves(lines: Seq<Seq<char>>, base: Map<Seq<char>, u16>)
    ensures
        variable_pass(lines, base) matches Some((t, _)) ==> resolves_all(lines, t),
    decreases lines.len(),
{
    if lines.len() > 0 {
        lemma_variable_pass_resolves(lines.drop_last(), base);
        if let Some((t, _)) = variable_pass(lines, base) {
            let (t0, _) = variable_pass(lines.drop_last(), base).unwrap();
            assert(t0.dom().subset_of(t.dom()));
            assert forall|i: int| 0 <= i < lines.len() && !is_skipped(lines[i]) implies (reference(
                strip_white(#[trigger] lines[i]),
            ) matches Some(n) ==> t.contains_key(n)) by {
                if i < lines.len() - 1 {
                    assert(lines.drop_last()[i] == lines[i]);
                }
            }
        }
    }
}

} // verus!
