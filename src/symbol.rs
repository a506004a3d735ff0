use crate::text::{
    chars_of, find, find_char, is_numeral, is_skipped, parse_numeral, skipped, slice_of, strip,
    strip_white,
};
use vstd::prelude::*;

verus! {

/// Why a symbol table cannot be built.
#[derive(Debug)]
pub enum SymbolError {
    /// The source could not be read.
    InvalidSymbol,
    /// A label or variable would lie beyond the 16-bit address space.
    OutofBoundsAddress,
}

/// The text of each line.
pub open spec fn texts(lines: Seq<String>) -> Seq<Seq<char>> {
    lines.map_values(|s: String| s@)
}

/// The names that every program knows: sixteen registers, the screen and keyboard
/// maps, and five pointer aliases of the low registers.
pub open spec fn predefined() -> Map<Seq<char>, u16> {
    Map::empty().insert("R0"@, 0u16).insert("R1"@, 1u16).insert("R2"@, 2u16).insert("R3"@, 3u16)
        .insert("R4"@, 4u16).insert("R5"@, 5u16).insert("R6"@, 6u16).insert("R7"@, 7u16).insert(
        "R8"@,
        8u16,
    ).insert("R9"@, 9u16).insert("R10"@, 10u16).insert("R11"@, 11u16).insert("R12"@, 12u16).insert(
        "R13"@,
        13u16,
    ).insert("R14"@, 14u16).insert("R15"@, 15u16).insert("SCREEN"@, 16384u16).insert(
        "KBD"@,
        24576u16,
    ).insert("SP"@, 0u16).insert("LCL"@, 1u16).insert("ARG"@, 2u16).insert("THIS"@, 3u16).insert(
        "THAT"@,
        4u16,
    )
}

/// The name that a label line `c` (whitespace removed, starting with `(`) defines: the
/// text between `(` and the first `)`.
pub open spec fn label_text(c: Seq<char>) -> Seq<char> {
    let body = c.drop_first();
    match find_char(body, ')') {
        Some(k) => body.subrange(0, k),
        None => body,
    }
}

/// The table after the label pass over `lines`, with the number of instruction lines
/// read; `None` where a label's address does not fit in 16 bits.
pub open spec fn label_pass(lines: Seq<Seq<char>>) -> Option<(Map<Seq<char>, u16>, nat)>
    decreases lines.len(),
{
    if lines.len() == 0 {
        Some((predefined(), 0))
    } else {
        match label_pass(lines.drop_last()) {
            None => None,
            Some((t, pc)) => {
                let c = strip_white(lines.last());
                if is_skipped(lines.last()) {
                    Some((t, pc))
                } else if c.len() > 0 && c[0] == '(' {
                    if pc <= 65535 {
                        Some((t.insert(label_text(c), pc as u16), pc))
                    } else {
                        None
                    }
                } else {
                    Some((t, pc + 1))
                }
            },
        }
    }
}

/// The name that a line `c` (whitespace removed) refers to as a variable, if it does:
/// an address instruction whose operand is not a numeral.
pub open spec fn reference(c: Seq<char>) -> Option<Seq<char>> {
    if c.len() > 0 && c[0] == '@' && !is_numeral(c.drop_first()) {
        Some(c.drop_first())
    } else {
        None
    }
}

/// The table after the variable pass over `lines`, starting from `base`, with the next
/// free address; `None` where a variable's address does not fit in 16 bits.
pub open spec fn variable_pass(lines: Seq<Seq<char>>, base: Map<Seq<char>, u16>) -> Option<
    (Map<Seq<char>, u16>, nat),
>
    decreases lines.len(),
{
    if lines.len() == 0 {
        Some((base, 16))
    } else {
        match variable_pass(lines.drop_last(), base) {
            None => None,
            Some((t, next)) => {
                let l = lines.last();
                let r = if is_skipped(l) {
                    None
                } else {
                    reference(strip_white(l))
                };
                match r {
                    Some(n) => if t.contains_key(n) {
                        Some((t, next))
                    } else if next <= 65535 {
                        Some((t.insert(n, next as u16), next + 1))
                    } else {
                        None
                    },
                    None => Some((t, next)),
                }
            },
        }
    }
}

/// The symbol table of a source: predefined names, then labels, then variables.
pub open spec fn symbol_table(lines: Seq<Seq<char>>) -> Option<Map<Seq<char>, u16>> {
    match label_pass(lines) {
        None => None,
        Some((t, _)) => match variable_pass(lines, t) {
            None => None,
            Some((t2, _)) => Some(t2),
        },
    }
}

pub open spec fn entries_map(names: Seq<Vec<char>>, addresses: Seq<u16>) -> Map<Seq<char>, u16>
    decreases names.len(),
{
    if names.len() == 0 || addresses.len() == 0 {
        Map::empty()
    } else {
        entries_map(names.drop_last(), addresses.drop_last()).insert(
            names.last()@,
            addresses.last(),
        )
    }
}

/// Names with their addresses; a later entry for a name replaces an earlier one.
pub struct SymbolTable {
    pub names: Vec<Vec<char>>,
    pub addresses: Vec<u16>,
}

impl View for SymbolTable {
    type V = Map<Seq<char>, u16>;

    open spec fn view(&self) -> Map<Seq<char>, u16> {
        entries_map(self.names@, self.addresses@)
    }
}

fn same_chars(a: &Vec<char>, b: &Vec<char>) -> (r: bool)
    ensures
        r == (a@ == b@),
{
    if a.len() != b.len() {
        return false;
    }
    let mut i: usize = 0;
    while i < a.len()
        invariant
            a.len() == b.len(),
            i <= a.len(),
            forall|k: int| 0 <= k < i ==> a@[k] == b@[k],
        decreases a.len() - i,
    {
        if a[i] != b[i] {
            return false;
        }
        i += 1;
    }
    assert(a@ =~= b@);
    true
}

impl SymbolTable {
    pub open spec fn wf(&self) -> bool {
        self.names.len() == self.addresses.len()
    }

    fn empty() -> (r: Self)
        ensures
            r.wf(),
            r@ == Map::<Seq<char>, u16>::empty(),
    {
        SymbolTable { names: Vec::new(), addresses: Vec::new() }
    }

    fn insert(&mut self, name: Vec<char>, address: u16)
        requires
            old(self).wf(),
        ensures
            final(self).wf(),
            final(self)@ == old(self)@.insert(name@, address),
    {
        self.names.push(name);
        self.addresses.push(address);
        assert(self.names@.drop_last() =~= old(self).names@);
        assert(self.addresses@.drop_last() =~= old(self).addresses@);
    }

    fn lookup(&self, name: &Vec<char>) -> (r: Option<u16>)
        requires
            self.wf(),
        ensures
            match r {
                Some(a) => self@.contains_key(name@) && self@[name@] == a,
                None => !self@.contains_key(name@),
            },
    {
        let mut i = self.names.len();
        assert(self.names@.subrange(0, i as int) =~= self.names@);
        assert(self.addresses@.subrange(0, i as int) =~= self.addresses@);
        while i > 0
            invariant
                self.wf(),
                i <= self.names.len(),
                self@.contains_key(name@) == entries_map(
                    self.names@.subrange(0, i as int),
                    self.addresses@.subrange(0, i as int),
                ).contains_key(name@),
                self@.contains_key(name@) ==> self@[name@] == entries_map(
                    self.names@.subrange(0, i as int),
                    self.addresses@.subrange(0, i as int),
                )[name@],
            decreases i,
        {
            assert(self.names@.subrange(0, i as int).drop_last() =~= self.names@.subrange(
                0,
                i - 1,
            ));
            assert(self.addresses@.subrange(0, i as int).drop_last() =~= self.addresses@.subrange(
                0,
                i - 1,
            ));
            if same_chars(&self.names[i - 1], name) {
                return Some(self.addresses[i - 1]);
            }
            i -= 1;
        }
        None
    }

    /// The address of `name`, if the table holds it.
    pub fn get(&self, name: &str) -> (r: Option<u16>)
        requires
            self.wf(),
        ensures
            match r {
                Some(a) => self@.contains_key(name@) && self@[name@] == a,
                None => !self@.contains_key(name@),
            },
    {
        self.lookup(&chars_of(name))
    }
}


fn predefined_table() -> (r: SymbolTable)
    ensures
        r.wf(),
        r@ == predefined(),
{
    let mut t = SymbolTable::empty();
    t.insert(chars_of("R0"), 0);
    t.insert(chars_of("R1"), 1);
    t.insert(chars_of("R2"), 2);
    t.insert(chars_of("R3"), 3);
    t.insert(chars_of("R4"), 4);
    t.insert(chars_of("R5"), 5);
    t.insert(chars_of("R6"), 6);
    t.insert(chars_of("R7"), 7);
    t.insert(chars_of("R8"), 8);
    t.insert(chars_of("R9"), 9);
    t.insert(chars_of("R10"), 10);
    t.insert(chars_of("R11"), 11);
    t.insert(chars_of("R12"), 12);
    t.insert(chars_of("R13"), 13);
    t.insert(chars_of("R14"), 14);
    t.insert(chars_of("R15"), 15);
    t.insert(chars_of("SCREEN"), 16384);
    t.insert(chars_of("KBD"), 24576);
    t.insert(chars_of("SP"), 0);
    t.insert(chars_of("LCL"), 1);
    t.insert(chars_of("ARG"), 2);
    t.insert(chars_of("THIS"), 3);
    t.insert(chars_of("THAT"), 4);
    t
}

/// Builds the symbol table of a source given as its lines.
pub fn create_table(lines: &Vec<String>) -> (r: Result<SymbolTable, SymbolError>)
    ensures
        match r {
            Ok(t) => t.wf() && symbol_table(texts(lines@)) == Some(t@),
            Err(e) => symbol_table(texts(lines@)) is None && e is OutofBoundsAddress,
        },
{
    let ghost src = texts(lines@);
    let mut table = predefined_table();
    let mut pc: usize = 0;
    let mut i: usize = 0;
    while i < lines.len()
        invariant
            i <= lines.len(),
            src == texts(lines@),
            table.wf(),
            pc <= i,
            label_pass(src.subrange(0, i as int)) == Some((table@, pc as nat)),
        decreases lines.len() - i,
    {
        assert(src.subrange(0, i + 1).drop_last() =~= src.subrange(0, i as int));
        let raw = chars_of(lines[i].as_str());
        if !skipped(&raw) {
            let c = strip(&raw);
            if c.len() > 0 && c[0] == '(' {
                if pc > 65535 {
                    proof {
                        lemma_label_pass_fails(src, (i + 1) as int);
                    }
                    return Err(SymbolError::OutofBoundsAddress);
                }
                let n = c.len();
                let body = slice_of(&c, 1, n);
                let end = match find(&body, 0, ')') {
                    Some(k) => k,
                    None => body.len(),
                };
                assert(body@.subrange(0, body.len() as int) =~= body@);
                assert(body@ =~= c@.drop_first());
                let name = slice_of(&body, 0, end);
                assert(end == body.len() ==> name@ =~= body@);
                table.insert(name, pc as u16);
            } else {
                pc += 1;
            }
        }
        i += 1;
    }
    assert(src.subrange(0, lines.len() as int) =~= src);
    let ghost labelled = table@;
    let mut next: usize = 16;
    i = 0;
    while i < lines.len()
        invariant
            i <= lines.len(),
            src == texts(lines@),
            table.wf(),
            next <= 16 + i,
            label_pass(src) matches Some((t, _)) && t == labelled,
            variable_pass(src.subrange(0, i as int), labelled) == Some((table@, next as nat)),
        decreases lines.len() - i,
    {
        assert(src.subrange(0, i + 1).drop_last() =~= src.subrange(0, i as int));
        let raw = chars_of(lines[i].as_str());
        if !skipped(&raw) {
            let c = strip(&raw);
            if c.len() > 0 && c[0] == '@' {
                assert(c@.subrange(1, c.len() as int) =~= c@.drop_first());
                if parse_numeral(&c, 1).is_none() {
                    let name = slice_of(&c, 1, c.len());
                    if table.lookup(&name).is_none() {
                        if next > 65535 {
                            proof {
                                lemma_variable_pass_fails(src, labelled, (i + 1) as int);
                            }
                            return Err(SymbolError::OutofBoundsAddress);
                        }
                        table.insert(name, next as u16);
                        next += 1;
                    }
                }
            }
        }
        i += 1;
    }
    assert(src.subrange(0, lines.len() as int) =~= src);
    Ok(table)
}

/// Once the label pass fails on a prefix, it fails on the whole source.
proof fn lemma_label_pass_fails(lines: Seq<Seq<char>>, k: int)
    requires
        0 <= k <= lines.len(),
        label_pass(lines.subrange(0, k)) is None,
    ensures
        label_pass(lines) is None,
    decreases lines.len() - k,
{
    if k < lines.len() {
        assert(lines.subrange(0, k + 1).drop_last() =~= lines.subrange(0, k));
        lemma_label_pass_fails(lines, k + 1);
    } else {
        assert(lines.subrange(0, k) =~= lines);
    }
}

/// Once the variable pass fails on a prefix, it fails on the whole source.
proof fn lemma_variable_pass_fails(lines: Seq<Seq<char>>, base: Map<Seq<char>, u16>, k: int)
    requires
        0 <= k <= lines.len(),
        variable_pass(lines.subrange(0, k), base) is None,
    ensures
        variable_pass(lines, base) is None,
    decreases lines.len() - k,
{
    if k < lines.len() {
        assert(lines.subrange(0, k + 1).drop_last() =~= lines.subrange(0, k));
        lemma_variable_pass_fails(lines, base, k + 1);
    } else {
        assert(lines.subrange(0, k) =~= lines);
    }
}

} // verus!
