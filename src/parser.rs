use crate::code::{comp_index, dest_index, jump_index, Code};
use crate::text::{
    char_leq, chars_of, find, find_char, lemma_find_char, cap16, integer_text, is_integer_text, is_numeral, is_skipped, numeral_value, parse_numeral,
    skipped, slice_of, sort_chars,
    sorted_chars, string_of, strip, strip_white,
};
use vstd::prelude::*;
use vstd::seq_lib::lemma_sorted_unique;

verus! {

/// Why a line is not an instruction.
#[derive(Debug, Clone)]
pub enum ParseError {
    InvalidLabel(String, u32),
    InvalidDest(String, u32),
    InvalidJmp(String, u32),
    InvalidCmp(String, u32),
    InvalidCommand(String),
    IntegerOverflow(u16, u32),
    EndOfFile,
}

/// What an address instruction loads.
#[derive(Debug, Clone)]
pub enum Symbol {
    Decimal(u16),
    Name(String),
}

/// One instruction of the source.
#[derive(Debug, Clone)]
pub enum Command {
    ACommand { symbol: Symbol },
    CCommand { dest: Option<String>, comp: String, jmp: Option<String> },
    LCommand { label: String },
}

pub enum ErrorModel {
    InvalidLabel(Seq<char>, u32),
    InvalidDest(Seq<char>, u32),
    InvalidJmp(Seq<char>, u32),
    InvalidCmp(Seq<char>, u32),
    InvalidCommand(Seq<char>),
    IntegerOverflow(u16, u32),
    EndOfFile,
}

pub enum SymbolModel {
    Decimal(u16),
    Name(Seq<char>),
}

pub enum CommandModel {
    Address(SymbolModel),
    Compute { dest: Option<Seq<char>>, comp: Seq<char>, jmp: Option<Seq<char>> },
    Label(Seq<char>),
}

pub open spec fn opt_view(o: Option<String>) -> Option<Seq<char>> {
    match o {
        Some(s) => Some(s@),
        None => None,
    }
}

impl View for ParseError {
    type V = ErrorModel;

    open spec fn view(&self) -> ErrorModel {
        match self {
            ParseError::InvalidLabel(s, l) => ErrorModel::InvalidLabel(s@, *l),
            ParseError::InvalidDest(s, l) => ErrorModel::InvalidDest(s@, *l),
            ParseError::InvalidJmp(s, l) => ErrorModel::InvalidJmp(s@, *l),
            ParseError::InvalidCmp(s, l) => ErrorModel::InvalidCmp(s@, *l),
            ParseError::InvalidCommand(s) => ErrorModel::InvalidCommand(s@),
            ParseError::IntegerOverflow(v, l) => ErrorModel::IntegerOverflow(*v, *l),
            ParseError::EndOfFile => ErrorModel::EndOfFile,
        }
    }
}

impl View for Symbol {
    type V = SymbolModel;

    open spec fn view(&self) -> SymbolModel {
        match self {
            Symbol::Decimal(v) => SymbolModel::Decimal(*v),
            Symbol::Name(n) => SymbolModel::Name(n@),
        }
    }
}

impl View for Command {
    type V = CommandModel;

    open spec fn view(&self) -> CommandModel {
        match self {
            Command::ACommand { symbol } => CommandModel::Address(symbol@),
            Command::CCommand { dest, comp, jmp } => CommandModel::Compute {
                dest: opt_view(*dest),
                comp: comp@,
                jmp: opt_view(*jmp),
            },
            Command::LCommand { label } => CommandModel::Label(label@),
        }
    }
}

pub open spec fn outcome(r: Result<Command, ParseError>) -> Result<CommandModel, ErrorModel> {
    match r {
        Ok(c) => Ok(c@),
        Err(e) => Err(e@),
    }
}

/// An address instruction `c` (which starts with `@`): a number up to 32767, or a name.
/// A number of 32768 or more is an overflow; the error carries it, or 65535 where it
/// does not fit in 16 bits.
pub open spec fn parse_address(c: Seq<char>, line: u32) -> Result<CommandModel, ErrorModel> {
    let rest = c.drop_first();
    if is_numeral(rest) {
        if numeral_value(rest) <= 32767 {
            Ok(CommandModel::Address(SymbolModel::Decimal(numeral_value(rest) as u16)))
        } else {
            Err(ErrorModel::IntegerOverflow(cap16(numeral_value(rest)) as u16, line))
        }
    } else {
        Ok(CommandModel::Address(SymbolModel::Name(rest)))
    }
}

/// A label definition `c` (which starts with `(`): a name that is neither empty nor a
/// number, closed by `)`.
pub open spec fn parse_label(c: Seq<char>, line: u32) -> Result<CommandModel, ErrorModel> {
    if c.last() != ')' || c.len() < 2 {
        Err(ErrorModel::InvalidLabel(c, line))
    } else {
        let name = c.subrange(1, c.len() - 1);
        if name.len() == 0 || is_integer_text(name) {
            Err(ErrorModel::InvalidLabel(name, line))
        } else {
            Ok(CommandModel::Label(name))
        }
    }
}

/// One of the seven destination sets, written in canonical order.
pub open spec fn is_dest(d: Seq<char>) -> bool {
    dest_index(d) matches Some(i) && i > 0
}

/// One of the seven jump conditions.
pub open spec fn is_jump(j: Seq<char>) -> bool {
    jump_index(j) matches Some(i) && i > 0
}

/// A compute instruction `c`: `dest=comp;jump`, where `dest=` and `;jump` may be left out.
pub open spec fn parse_compute(c: Seq<char>, line: u32) -> Result<CommandModel, ErrorModel> {
    let dest = match find_char(c, '=') {
        Some(k) => Some(sorted_chars(c.subrange(0, k))),
        None => None,
    };
    let rest = match find_char(c, '=') {
        Some(k) => c.subrange(k + 1, c.len() as int),
        None => c,
    };
    let comp = match find_char(rest, ';') {
        Some(k) => rest.subrange(0, k),
        None => rest,
    };
    let jmp = match find_char(rest, ';') {
        Some(k) => Some(rest.subrange(k + 1, rest.len() as int)),
        None => None,
    };
    if dest matches Some(d) && !is_dest(d) {
        Err(ErrorModel::InvalidDest(dest.unwrap(), line))
    } else if comp_index(comp) is None {
        Err(ErrorModel::InvalidCmp(comp, line))
    } else if jmp matches Some(j) && !is_jump(j) {
        Err(ErrorModel::InvalidJmp(jmp.unwrap(), line))
    } else {
        Ok(CommandModel::Compute { dest, comp, jmp })
    }
}

/// The instruction on a line with its whitespace removed, `line` counting the
/// instructions before it.
pub open spec fn parse_command(c: Seq<char>, line: u32) -> Result<CommandModel, ErrorModel> {
    if c.len() == 0 {
        Err(ErrorModel::EndOfFile)
    } else if c[0] == '@' {
        parse_address(c, line)
    } else if c[0] == '(' {
        parse_label(c, line)
    } else if c[0] == 'M' || c[0] == 'A' || c[0] == 'D' || c[0] == '0' {
        parse_compute(c, line)
    } else {
        Err(ErrorModel::InvalidCommand(c))
    }
}

/// A cursor over the lines of a source, which reads one instruction at a time.
pub struct Parser {
    pub lines: Vec<String>,
    /// The next line to read.
    pub pos: usize,
    pub current: Option<Command>,
    /// How many instructions have been read.
    pub line_num: u32,
}

impl Parser {
    pub open spec fn wf(&self) -> bool {
        &&& self.pos <= self.lines.len()
        &&& self.lines.len() <= u32::MAX
        &&& self.line_num <= self.pos
    }

    pub open spec fn current_view(&self) -> Option<CommandModel> {
        match self.current {
            Some(c) => Some(c@),
            None => None,
        }
    }

    pub fn new(lines: Vec<String>) -> (r: Self)
        requires
            lines.len() <= u32::MAX,
        ensures
            r.wf(),
            r.lines@ == lines@,
            r.pos == 0,
            r.current is None,
            r.line_num == 0,
    {
        Parser { lines, pos: 0, current: None, line_num: 0 }
    }

    pub fn get_current(&self) -> (r: Option<&Command>)
        ensures
            match r {
                Some(c) => self.current == Some(*c),
                None => self.current is None,
            },
    {
        match &self.current {
            Some(c) => Some(c),
            None => None,
        }
    }

    /// Skips blank and comment lines; tells whether an instruction line is left.
    pub fn has_more_commands(&mut self) -> (r: bool)
        requires
            old(self).wf(),
        ensures
            final(self).wf(),
            final(self).lines@ == old(self).lines@,
            final(self).current == old(self).current,
            final(self).line_num == old(self).line_num,
            old(self).pos <= final(self).pos,
            forall|i: int|
                old(self).pos <= i < final(self).pos ==> is_skipped(#[trigger] final(self).lines@[i]@),
            r == (final(self).pos < final(self).lines.len()),
            r ==> !is_skipped(final(self).lines@[final(self).pos as int]@),
    {
        let ghost start = self.pos;
        while self.pos < self.lines.len()
            invariant
                self.wf(),
                start <= self.pos,
                self.lines@ == old(self).lines@,
                self.current == old(self).current,
                self.line_num == old(self).line_num,
                start == old(self).pos,
                forall|i: int| start <= i < self.pos ==> is_skipped(#[trigger] self.lines@[i]@),
            decreases self.lines.len() - self.pos,
        {
            let c = chars_of(self.lines[self.pos].as_str());
            if !skipped(&c) {
                return true;
            }
            self.pos += 1;
        }
        false
    }

    /// Reads the next line as an instruction.
    pub fn advance(&mut self) -> (r: Result<(), ParseError>)
        requires
            old(self).wf(),
        ensures
            final(self).wf(),
            final(self).lines@ == old(self).lines@,
            old(self).pos == old(self).lines.len() ==> (r matches Err(ParseError::EndOfFile))
                && *final(self) == *old(self),
            old(self).pos < old(self).lines.len() ==> {
                &&& final(self).pos == old(self).pos + 1
                &&& match parse_command(
                    strip_white(old(self).lines@[old(self).pos as int]@),
                    old(self).line_num,
                ) {
                    Ok(c) => r is Ok && final(self).current_view() == Some(c)
                        && final(self).line_num == old(self).line_num + 1,
                    Err(e) => r matches Err(x) && x@ == e && final(self).current
                        == old(self).current && final(self).line_num == old(self).line_num,
                }
            },
    {
        if self.pos >= self.lines.len() {
            return Err(ParseError::EndOfFile);
        }
        let raw = chars_of(self.lines[self.pos].as_str());
        let cmd = strip(&raw);
        self.pos += 1;
        let line = self.line_num;
        let parsed = if cmd.len() == 0 {
            Err(ParseError::EndOfFile)
        } else if cmd[0] == '@' {
            self.parse_a_command(&cmd, line)
        } else if cmd[0] == '(' {
            self.parse_l_command(&cmd, line)
        } else if cmd[0] == 'M' || cmd[0] == 'A' || cmd[0] == 'D' || cmd[0] == '0' {
            self.parse_c_command(&cmd, line)
        } else {
            Err(ParseError::InvalidCommand(string_of(&cmd)))
        };
        match parsed {
            Ok(c) => {
                self.current = Some(c);
                self.line_num = self.line_num + 1;
                Ok(())
            },
            Err(e) => Err(e),
        }
    }

    fn parse_a_command(&self, cmd: &Vec<char>, line: u32) -> (r: Result<Command, ParseError>)
        requires
            cmd.len() > 0,
            cmd@[0] == '@',
        ensures
            outcome(r) == parse_address(cmd@, line),
    {
        assert(cmd@.subrange(1, cmd.len() as int) =~= cmd@.drop_first());
        match parse_numeral(cmd, 1) {
            Some(i) => {
                if i <= 32767 {
                    Ok(Command::ACommand { symbol: Symbol::Decimal(i) })
                } else {
                    Err(ParseError::IntegerOverflow(i, line))
                }
            },
            None => {
                let name = slice_of(cmd, 1, cmd.len());
                Ok(Command::ACommand { symbol: Symbol::Name(string_of(&name)) })
            },
        }
    }

    fn parse_l_command(&self, cmd: &Vec<char>, line: u32) -> (r: Result<Command, ParseError>)
        requires
            cmd.len() > 0,
            cmd@[0] == '(',
        ensures
            outcome(r) == parse_label(cmd@, line),
    {
        let n = cmd.len();
        if cmd[n - 1] != ')' || n < 2 {
            return Err(ParseError::InvalidLabel(string_of(cmd), line));
        }
        let contents = slice_of(cmd, 1, n - 1);
        if contents.len() == 0 || integer_text(&contents) {
            Err(ParseError::InvalidLabel(string_of(&contents), line))
        } else {
            Ok(Command::LCommand { label: string_of(&contents) })
        }
    }

    fn parse_c_command(&self, cmd: &Vec<char>, line: u32) -> (r: Result<Command, ParseError>)
        ensures
            outcome(r) == parse_compute(cmd@, line),
    {
        let n = cmd.len();
        assert(cmd@.subrange(0, n as int) =~= cmd@);
        let eq = find(cmd, 0, '=');
        let mut dest: Option<String> = None;
        let mut start: usize = 0;
        if let Some(k) = eq {
            let mut d = slice_of(cmd, 0, k);
            sort_chars(&mut d);
            let valid = match Code::dst_index(string_of(&d).as_str()) {
                Some(i) => i > 0,
                None => false,
            };
            if !valid {
                return Err(ParseError::InvalidDest(string_of(&d), line));
            }
            dest = Some(string_of(&d));
            start = k + 1;
        }
        let ghost rest = cmd@.subrange(start as int, n as int);
        proof {
            if eq is None {
                assert(rest =~= cmd@);
            }
        }
        let semi = find(cmd, start, ';');
        let comp_end = match semi {
            Some(k) => k,
            None => n,
        };
        let comp = string_of(&slice_of(cmd, start, comp_end));
        proof {
            if let Some(k) = semi {
                assert(rest.subrange(0, k - start) =~= cmd@.subrange(start as int, k as int));
                assert(rest.subrange(k - start + 1, rest.len() as int) =~= cmd@.subrange(
                    k + 1,
                    n as int,
                ));
            }
        }
        if Code::cmp_index(comp.as_str()).is_none() {
            return Err(ParseError::InvalidCmp(comp, line));
        }
        let mut jmp: Option<String> = None;
        if let Some(k) = semi {
            let j = string_of(&slice_of(cmd, k + 1, n));
            let valid = match Code::jmp_index(j.as_str()) {
                Some(i) => i > 0,
                None => false,
            };
            if !valid {
                return Err(ParseError::InvalidJmp(j, line));
            }
            jmp = Some(j);
        }
        Ok(Command::CCommand { dest, comp, jmp })
    }
}

/// The registers of a destination may be written in any order: two destinations with
/// the same letters give the same instruction, or the same error.
pub proof fn lemma_dest_order_free(d1: Seq<char>, d2: Seq<char>, rest: Seq<char>, line: u32)
    requires
        d1.to_multiset() == d2.to_multiset(),
        !d1.contains('='),
        !d2.contains('='),
        d1.len() > 0 && (d1[0] == 'M' || d1[0] == 'A' || d1[0] == 'D' || d1[0] == '0'),
        d2.len() > 0 && (d2[0] == 'M' || d2[0] == 'A' || d2[0] == 'D' || d2[0] == '0'),
    ensures
        parse_command(d1 + seq!['='] + rest, line) == parse_command(d2 + seq!['='] + rest, line),
{
    lemma_dest_split(d1, rest);
    lemma_dest_split(d2, rest);
    d1.lemma_sort_by_ensures(char_leq());
    d2.lemma_sort_by_ensures(char_leq());
    lemma_sorted_unique(sorted_chars(d1), sorted_chars(d2), char_leq());
}

proof fn lemma_dest_split(d: Seq<char>, rest: Seq<char>)
    requires
        !d.contains('='),
    ensures
        ({
            let c = d + seq!['='] + rest;
            &&& find_char(c, '=') == Some(d.len() as int)
            &&& c.subrange(0, d.len() as int) == d
            &&& c.subrange(d.len() as int + 1, c.len() as int) == rest
            &&& d.len() > 0 ==> c[0] == d[0]
        }),
{
    let c = d + seq!['='] + rest;
    assert forall|j: int| 0 <= j < d.len() implies c[j] != '=' by {
        assert(c[j] == d[j]);
    }
    lemma_find_char(c, '=', d.len() as int);
    assert(c.subrange(0, d.len() as int) =~= d);
    assert(c.subrange(d.len() as int + 1, c.len() as int) =~= rest);
}

/// An address written as a number of 32768 or more is an overflow error, which carries
/// the number, or 65535 where it does not fit in 16 bits.
pub proof fn lemma_address_overflow(digits: Seq<char>, line: u32)
    requires
        is_numeral(digits),
        numeral_value(digits) >= 32768,
    ensures
        parse_command(seq!['@'] + digits, line) == Err::<CommandModel, ErrorModel>(
            ErrorModel::IntegerOverflow(cap16(numeral_value(digits)) as u16, line),
        ),
{
    assert((seq!['@'] + digits).drop_first() =~= digits);
}

} // verus!
