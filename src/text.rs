use vstd::prelude::*;
use vstd::relations::sorted_by;

verus! {

/// The characters that `char::is_whitespace` accepts: Unicode's `White_Space` property.
pub open spec fn is_white(c: char) -> bool {
    ||| ('\u{9}' <= c && c <= '\u{d}')
    ||| c == ' '
    ||| c == '\u{85}'
    ||| c == '\u{a0}'
    ||| c == '\u{1680}'
    ||| ('\u{2000}' <= c && c <= '\u{200a}')
    ||| c == '\u{2028}'
    ||| c == '\u{2029}'
    ||| c == '\u{202f}'
    ||| c == '\u{205f}'
    ||| c == '\u{3000}'
}

/// Whether `c` is whitespace.
pub fn white(c: char) -> (r: bool)
    ensures
        r == is_white(c),
{
    ('\u{9}' <= c && c <= '\u{d}') || c == ' ' || c == '\u{85}' || c == '\u{a0}' || c == '\u{1680}'
        || ('\u{2000}' <= c && c <= '\u{200a}') || c == '\u{2028}' || c == '\u{2029}' || c
        == '\u{202f}' || c == '\u{205f}' || c == '\u{3000}'
}

/// The text with every whitespace character removed.
pub open spec fn strip_white(s: Seq<char>) -> Seq<char>
    decreases s.len(),
{
    if s.len() == 0 {
        s
    } else if is_white(s.last()) {
        strip_white(s.drop_last())
    } else {
        strip_white(s.drop_last()).push(s.last())
    }
}

/// The text with its leading whitespace removed.
pub open spec fn trim_start(s: Seq<char>) -> Seq<char>
    decreases s.len(),
{
    if s.len() > 0 && is_white(s[0]) {
        trim_start(s.drop_first())
    } else {
        s
    }
}

/// The characters of `s`, one by one.
pub fn chars_of(s: &str) -> (r: Vec<char>)
    ensures
        r@ == s@,
{
    let n = s.unicode_len();
    let mut r: Vec<char> = Vec::new();
    let mut i: usize = 0;
    while i < n
        invariant
            n == s@.len(),
            i <= n,
            r@ == s@.subrange(0, i as int),
        decreases n - i,
    {
        r.push(s.get_char(i));
        i += 1;
    }
    assert(r@ =~= s@);
    r
}


/// `s` with its whitespace removed.
pub fn strip(s: &Vec<char>) -> (r: Vec<char>)
    ensures
        r@ == strip_white(s@),
{
    let mut r: Vec<char> = Vec::new();
    let mut i: usize = 0;
    while i < s.len()
        invariant
            i <= s.len(),
            r@ == strip_white(s@.subrange(0, i as int)),
        decreases s.len() - i,
    {
        assert(s@.subrange(0, i + 1).drop_last() =~= s@.subrange(0, i as int));
        if !white(s[i]) {
            r.push(s[i]);
        }
        i += 1;
    }
    assert(s@.subrange(0, s.len() as int) =~= s@);
    r
}

/// A line that holds no instruction: blank, or a comment starting with `//`
/// once leading whitespace is dropped.
pub open spec fn is_skipped(line: Seq<char>) -> bool {
    let t = trim_start(line);
    t.len() == 0 || (t.len() >= 2 && t[0] == '/' && t[1] == '/')
}

pub fn skipped(line: &Vec<char>) -> (r: bool)
    ensures
        r == is_skipped(line@),
{
    let mut i: usize = 0;
    assert(line@.subrange(0, line.len() as int) =~= line@);
    while i < line.len() && white(line[i])
        invariant
            i <= line.len(),
            trim_start(line@) == trim_start(line@.subrange(i as int, line.len() as int)),
        decreases line.len() - i,
    {
        assert(line@.subrange(i as int, line.len() as int).drop_first() =~= line@.subrange(
            i + 1,
            line.len() as int,
        ));
        i += 1;
    }
    let ghost t = line@.subrange(i as int, line.len() as int);
    assert(line@.subrange(line.len() as int, line.len() as int) =~= Seq::<char>::empty());
    i == line.len() || (i + 1 < line.len() && line[i] == '/' && line[i + 1] == '/')
}

pub open spec fn is_digit(c: char) -> bool {
    '0' <= c && c <= '9'
}

/// The number that a string of decimal digits denotes.
pub open spec fn digits_value(d: Seq<char>) -> nat
    decreases d.len(),
{
    if d.len() == 0 {
        0
    } else {
        digits_value(d.drop_last()) * 10 + (d.last() as nat - '0' as nat) as nat
    }
}

/// The digits of a decimal number, after the `+` sign that may lead them.
pub open spec fn unsigned_digits(s: Seq<char>) -> Seq<char> {
    if s.len() > 0 && s[0] == '+' {
        s.drop_first()
    } else {
        s
    }
}

/// At least one character, all decimal digits.
pub open spec fn is_digits(d: Seq<char>) -> bool {
    d.len() > 0 && forall|i: int| 0 <= i < d.len() ==> is_digit(#[trigger] d[i])
}

/// Whether `s` is an unsigned decimal numeral: an optional `+`, then at least one digit.
/// Its value may be of any size.
pub open spec fn is_numeral(s: Seq<char>) -> bool {
    is_digits(unsigned_digits(s))
}

/// The value of an unsigned numeral.
pub open spec fn numeral_value(s: Seq<char>) -> nat {
    digits_value(unsigned_digits(s))
}

/// `v`, or 65535 where `v` does not fit in 16 bits.
pub open spec fn cap16(v: nat) -> nat {
    if v > 65535 {
        65535
    } else {
        v
    }
}

/// The digits of an integer numeral, after the `+` or `-` sign that may lead them.
pub open spec fn signless_digits(s: Seq<char>) -> Seq<char> {
    if s.len() > 0 && (s[0] == '+' || s[0] == '-') {
        s.drop_first()
    } else {
        s
    }
}

/// Whether `s` is an integer numeral: an optional sign, then at least one digit.
pub open spec fn is_integer_text(s: Seq<char>) -> bool {
    is_digits(signless_digits(s))
}

/// Whether `s[from..]` is all digits, and not empty.
fn all_digits(s: &Vec<char>, from: usize) -> (r: bool)
    requires
        from <= s.len(),
    ensures
        r == is_digits(s@.subrange(from as int, s.len() as int)),
{
    let ghost d = s@.subrange(from as int, s.len() as int);
    if from == s.len() {
        return false;
    }
    let mut i = from;
    while i < s.len()
        invariant
            from <= i <= s.len(),
            d == s@.subrange(from as int, s.len() as int),
            forall|k: int| 0 <= k < i - from ==> is_digit(#[trigger] d[k]),
        decreases s.len() - i,
    {
        if !('0' <= s[i] && s[i] <= '9') {
            assert(!is_digit(d[i - from]));
            return false;
        }
        i += 1;
    }
    true
}

/// Whether `s` is an integer numeral.
pub fn integer_text(s: &Vec<char>) -> (r: bool)
    ensures
        r == is_integer_text(s@),
{
    let start: usize = if s.len() > 0 && (s[0] == '+' || s[0] == '-') {
        1
    } else {
        0
    };
    assert(s@.subrange(start as int, s.len() as int) =~= signless_digits(s@));
    all_digits(s, start)
}

/// Reads `s[from..]` as an unsigned numeral, its value held to 16 bits.
pub fn parse_numeral(s: &Vec<char>, from: usize) -> (r: Option<u16>)
    requires
        from <= s.len(),
    ensures
        ({
            let t = s@.subrange(from as int, s.len() as int);
            match r {
                Some(v) => is_numeral(t) && v as nat == cap16(numeral_value(t)),
                None => !is_numeral(t),
            }
        }),
{
    let ghost t = s@.subrange(from as int, s.len() as int);
    let mut i = from;
    if i < s.len() && s[i] == '+' {
        i += 1;
    }
    let ghost d = s@.subrange(i as int, s.len() as int);
    assert(d =~= unsigned_digits(t));
    if !all_digits(s, i) {
        return None;
    }
    let start = i;
    let mut v: u32 = 0;
    while i < s.len()
        invariant
            start <= i <= s.len(),
            d == s@.subrange(start as int, s.len() as int),
            d == unsigned_digits(t),
            t == s@.subrange(from as int, s.len() as int),
            is_digits(d),
            v as nat == digits_value(s@.subrange(start as int, i as int)),
            v <= 65535,
        decreases s.len() - i,
    {
        assert(is_digit(d[i - start]));
        assert(s@.subrange(start as int, i + 1).drop_last() =~= s@.subrange(start as int, i as int));
        let nv = v * 10 + (s[i] as u32 - '0' as u32);
        assert(nv as nat == digits_value(s@.subrange(start as int, i + 1)));
        if nv > 65535 {
            proof {
                lemma_digits_value_prefix(d, (i + 1 - start) as int);
                assert(d.subrange(0, i + 1 - start) =~= s@.subrange(start as int, i + 1));
            }
            return Some(65535);
        }
        v = nv;
        i += 1;
    }
    Some(v as u16)
}

/// The digit for `d`, below ten.
pub open spec fn digit_char(d: nat) -> char {
    if d == 0 {
        '0'
    } else if d == 1 {
        '1'
    } else if d == 2 {
        '2'
    } else if d == 3 {
        '3'
    } else if d == 4 {
        '4'
    } else if d == 5 {
        '5'
    } else if d == 6 {
        '6'
    } else if d == 7 {
        '7'
    } else if d == 8 {
        '8'
    } else {
        '9'
    }
}

/// `n` written in decimal, without leading zeros.
pub open spec fn decimal(n: nat) -> Seq<char>
    decreases n,
{
    if n < 10 {
        seq![digit_char(n)]
    } else {
        decimal(n / 10).push(digit_char(n % 10))
    }
}

proof fn lemma_digit_char(d: nat)
    requires
        d < 10,
    ensures
        is_digit(digit_char(d)),
        digit_char(d) as nat - '0' as nat == d,
{
}

/// The decimal form of `n` is a numeral worth `n`.
pub proof fn lemma_decimal(n: nat)
    ensures
        is_digits(decimal(n)),
        digits_value(decimal(n)) == n,
        is_numeral(decimal(n)),
        numeral_value(decimal(n)) == n,
    decreases n,
{
    if n < 10 {
        let s = decimal(n);
        assert(s.drop_last() =~= Seq::<char>::empty());
        lemma_digit_char(n);
        assert(s.last() == digit_char(n));
        assert(digits_value(s.drop_last()) == 0);
        assert(digits_value(s) == digits_value(s.drop_last()) * 10 + (s.last() as nat
            - '0' as nat) as nat);
    } else {
        lemma_decimal(n / 10);
        lemma_digit_char(n % 10);
        let s = decimal(n);
        assert(s.drop_last() =~= decimal(n / 10));
        assert(s.last() == digit_char(n % 10));
        assert(digits_value(s) == digits_value(s.drop_last()) * 10 + (s.last() as nat
            - '0' as nat) as nat);
        assert((n / 10) * 10 + n % 10 == n);
    }
    assert(is_digit(decimal(n)[0]));
    assert(unsigned_digits(decimal(n)) == decimal(n));
}

/// A prefix of a digit string never denotes more than the whole string.
proof fn lemma_digits_value_prefix(d: Seq<char>, k: int)
    requires
        0 <= k <= d.len(),
        forall|i: int| 0 <= i < d.len() ==> is_digit(#[trigger] d[i]),
    ensures
        digits_value(d.subrange(0, k)) <= digits_value(d),
    decreases d.len(),
{
    if k < d.len() {
        assert(d.drop_last().subrange(0, k) =~= d.subrange(0, k));
        lemma_digits_value_prefix(d.drop_last(), k);
    } else {
        assert(d.subrange(0, k) =~= d);
    }
}


pub open spec fn pow2(k: nat) -> nat
    decreases k,
{
    if k == 0 {
        1
    } else {
        2 * pow2((k - 1) as nat)
    }
}

/// `n` written in binary with `w` digits, most significant first; the digits above
/// the `w`th are dropped.
pub open spec fn binary(n: nat, w: nat) -> Seq<char>
    decreases w,
{
    if w == 0 {
        Seq::empty()
    } else {
        let p = pow2((w - 1) as nat);
        seq![if (n / p) % 2 == 1 { '1' } else { '0' }] + binary(n % p, (w - 1) as nat)
    }
}

/// `v` as 16 binary digits.
pub fn binary16(v: u16) -> (r: Vec<char>)
    ensures
        r@ == binary(v as nat, 16),
{
    let mut r: Vec<char> = Vec::new();
    let mut rem: u32 = v as u32;
    let mut p: u32 = 32768;
    let mut k: u32 = 16;
    assert(pow2(16) == 65536 && pow2(15) == 32768) by {
        reveal_with_fuel(pow2, 17);
    }
    while k > 0
        invariant
            k <= 16,
            r@ + binary(rem as nat, k as nat) == binary(v as nat, 16),
            rem < pow2(k as nat),
            k > 0 ==> p == pow2((k - 1) as nat),
        decreases k,
    {
        let ghost old_rem = rem;
        let ghost old_r = r@;
        proof {
            assert(rem < 2 * p);
            assert(p > 0) by {
                lemma_pow2_positive((k - 1) as nat);
            }
            assert((old_rem as nat) / (p as nat) == if old_rem >= p {
                1nat
            } else {
                0nat
            }) by (nonlinear_arith)
                requires
                    old_rem < 2 * p,
                    p > 0,
            ;
            assert((old_rem as nat) % (p as nat) == if old_rem >= p {
                (old_rem - p) as nat
            } else {
                old_rem as nat
            }) by (nonlinear_arith)
                requires
                    old_rem < 2 * p,
                    p > 0,
            ;
        }
        if rem >= p {
            r.push('1');
            rem = rem - p;
        } else {
            r.push('0');
        }
        proof {
            let tail = binary(rem as nat, (k - 1) as nat);
            assert(binary(old_rem as nat, k as nat) == seq![r@.last()] + tail);
            assert(r@ + tail =~= old_r + (seq![r@.last()] + tail));
        }
        k = k - 1;
        if k > 0 {
            assert(p == 2 * pow2((k - 1) as nat));
            p = p / 2;
        }
    }
    assert(r@ + binary(rem as nat, 0) =~= r@);
    r
}

proof fn lemma_pow2_positive(k: nat)
    ensures
        pow2(k) > 0,
    decreases k,
{
    if k > 0 {
        lemma_pow2_positive((k - 1) as nat);
    }
}

pub open spec fn char_leq() -> spec_fn(char, char) -> bool {
    |a: char, b: char| a <= b
}

/// The characters of `s` in ascending order.
pub open spec fn sorted_chars(s: Seq<char>) -> Seq<char> {
    s.sort_by(char_leq())
}

/// Sorts `v` into ascending order of characters.
pub fn sort_chars(v: &mut Vec<char>)
    ensures
        final(v)@ == sorted_chars(old(v)@),
{
    let ghost orig = v@;
    let mut i: usize = 1;
    if v.len() == 0 {
        proof {
            lemma_sorted_chars_is_sort(orig, v@);
        }
        return;
    }
    while i < v.len()
        invariant
            1 <= i <= v.len(),
            v.len() == orig.len(),
            v@.to_multiset() == orig.to_multiset(),
            forall|a: int, b: int| 0 <= a < b < i ==> #[trigger] v@[a] <= #[trigger] v@[b],
        decreases v.len() - i,
    {
        let mut j: usize = i;
        while j > 0 && v[j - 1] > v[j]
            invariant
                0 <= j <= i < v.len(),
                v.len() == orig.len(),
                v@.to_multiset() == orig.to_multiset(),
                forall|a: int, b: int|
                    0 <= a < b <= i && a != j && b != j ==> #[trigger] v@[a] <= #[trigger] v@[b],
                forall|b: int| j < b <= i ==> v@[j as int] <= #[trigger] v@[b],
                j < i ==> forall|a: int| 0 <= a < j ==> #[trigger] v@[a] <= v@[j + 1],
            decreases j,
        {
            let a = v[j - 1];
            let b = v[j];
            let ghost before = v@;
            v.set(j - 1, b);
            v.set(j, a);
            proof {
                assert(v@ =~= before.update(j - 1, b).update(j as int, a));
                lemma_swap_multiset(before, j - 1, j as int);
            }
            j = j - 1;
        }
        assert forall|a: int, b: int| 0 <= a < b < i + 1 implies #[trigger] v@[a] <= #[trigger] v@[b] by {
            if b == j && a < j - 1 {
                assert(v@[a] <= v@[j - 1]);
            }
        }
        i += 1;
    }
    proof {
        lemma_sorted_chars_is_sort(orig, v@);
    }
}

proof fn lemma_swap_multiset(s: Seq<char>, a: int, b: int)
    requires
        0 <= a < b < s.len(),
    ensures
        s.update(a, s[b]).update(b, s[a]).to_multiset() == s.to_multiset(),
{
    broadcast use vstd::seq_lib::group_to_multiset_ensures;

    let t = s.update(a, s[b]);
    vstd::seq_lib::to_multiset_update(s, a, s[b]);
    vstd::seq_lib::to_multiset_update(t, b, s[a]);
    assert(t.update(b, s[a]).to_multiset() =~= s.to_multiset());
}

/// A sorted rearrangement of `s` is `sorted_chars(s)`.
pub proof fn lemma_sorted_chars_is_sort(s: Seq<char>, t: Seq<char>)
    requires
        t.to_multiset() == s.to_multiset(),
        sorted_by(t, char_leq()),
    ensures
        t == sorted_chars(s),
{
    s.lemma_sort_by_ensures(char_leq());
    vstd::seq_lib::lemma_sorted_unique(t, sorted_chars(s), char_leq());
}


/// Whether the characters `a` spell `b`.
pub fn text_is(a: &Vec<char>, b: &str) -> (r: bool)
    ensures
        r == (a@ == b@),
{
    let n = b.unicode_len();
    if a.len() != n {
        return false;
    }
    let mut i: usize = 0;
    while i < n
        invariant
            n == b@.len() == a.len(),
            i <= n,
            forall|k: int| 0 <= k < i ==> a@[k] == b@[k],
        decreases n - i,
    {
        if a[i] != b.get_char(i) {
            return false;
        }
        i += 1;
    }
    assert(a@ =~= b@);
    true
}

/// Relies on `String`'s `FromIterator<&char>`: the string holds the characters in order.
#[verifier::external_body]
pub fn string_of(v: &Vec<char>) -> (r: String)
    ensures
        r@ == v@,
{
    String::from_iter(v.iter())
}


/// `v[from..to]` as a vector of its own.
pub fn slice_of(v: &Vec<char>, from: usize, to: usize) -> (r: Vec<char>)
    requires
        from <= to <= v.len(),
    ensures
        r@ == v@.subrange(from as int, to as int),
{
    let mut r: Vec<char> = Vec::new();
    let mut i = from;
    while i < to
        invariant
            from <= i <= to <= v.len(),
            r@ == v@.subrange(from as int, i as int),
        decreases to - i,
    {
        r.push(v[i]);
        i += 1;
    }
    r
}

/// The position of the first `ch` in `s`, if there is one.
pub open spec fn find_char(s: Seq<char>, ch: char) -> Option<int>
    decreases s.len(),
{
    if s.len() == 0 {
        None
    } else if s[0] == ch {
        Some(0)
    } else {
        match find_char(s.drop_first(), ch) {
            Some(k) => Some(k + 1),
            None => None,
        }
    }
}

pub proof fn lemma_find_char(s: Seq<char>, ch: char, i: int)
    requires
        0 <= i <= s.len(),
        forall|j: int| 0 <= j < i ==> s[j] != ch,
        i < s.len() ==> s[i] == ch,
    ensures
        find_char(s, ch) == if i < s.len() {
            Some(i)
        } else {
            None::<int>
        },
    decreases s.len(),
{
    if s.len() > 0 && i > 0 {
        lemma_find_char(s.drop_first(), ch, i - 1);
    }
}

/// Finds the first `ch` in `s[from..]`, as a position in `s`.
pub fn find(s: &Vec<char>, from: usize, ch: char) -> (r: Option<usize>)
    requires
        from <= s.len(),
    ensures
        match r {
            Some(k) => from <= k < s.len() && find_char(s@.subrange(from as int, s.len() as int), ch)
                == Some(k - from),
            None => find_char(s@.subrange(from as int, s.len() as int), ch) is None,
        },
{
    let ghost t = s@.subrange(from as int, s.len() as int);
    let mut i = from;
    while i < s.len() && s[i] != ch
        invariant
            from <= i <= s.len(),
            t == s@.subrange(from as int, s.len() as int),
            forall|j: int| 0 <= j < i - from ==> t[j] != ch,
        decreases s.len() - i,
    {
        i += 1;
    }
    proof {
        lemma_find_char(t, ch, i - from);
    }
    if i < s.len() {
        Some(i)
    } else {
        None
    }
}

} // verus!
