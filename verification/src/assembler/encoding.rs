use vstd::prelude::*;

use crate::assembler::error::{is_asm_err, AsmErrorKind, AssemblerError};
use crate::assembler::text::{
    char_code, chars_eq, chars_of, spec_trim, spec_upper, subrange_chars, text_is, trim_chars,
    upper_chars,
};

verus! {

// ---------------------------------------------------------------------------
// The label table
// ---------------------------------------------------------------------------
/// One label binding: a name and the absolute byte address it stands for.
pub struct LabelEntry {
    pub name: Vec<char>,
    pub address: usize,
}

/// A mapping from label names to absolute addresses, with unique names.
/// (Pass 1 rejects a duplicate before inserting it.)
pub struct LabelTable {
    pub entries: Vec<LabelEntry>,
}

/// The address bound to `name` in the table `t`, by first match.
pub open spec fn spec_lookup(t: Seq<(Seq<char>, int)>, name: Seq<char>) -> Option<int>
    decreases t.len(),
{
    if t.len() == 0 {
        None
    } else if t[0].0 == name {
        Some(t[0].1)
    } else {
        spec_lookup(t.drop_first(), name)
    }
}

/// Looking a name up after a push: the new entry answers only where the
/// table had no binding for the name.
pub proof fn lemma_lookup_push(t: Seq<(Seq<char>, int)>, e: (Seq<char>, int), name: Seq<char>)
    ensures
        spec_lookup(t.push(e), name) == if spec_lookup(t, name) is Some {
            spec_lookup(t, name)
        } else if e.0 == name {
            Some(e.1)
        } else {
            None
        },
    decreases t.len(),
{
    let p = t.push(e);
    assert(p.len() == t.len() + 1);
    if t.len() == 0 {
        assert(p[0] == e);
        assert(p.drop_first() =~= Seq::<(Seq<char>, int)>::empty());
        if e.0 == name {
            assert(spec_lookup(p, name) == Some(e.1));
        } else {
            assert(spec_lookup(p, name) == spec_lookup(p.drop_first(), name));
        }
    } else {
        assert(p[0] == t[0]);
        assert(p.drop_first() =~= t.drop_first().push(e));
        lemma_lookup_push(t.drop_first(), e, name);
    }
}

/// Every address in the table is nonnegative and fits in a 31-bit value,
/// so it can stand where an `i32` literal can.
pub open spec fn spec_addresses_ok(t: Seq<(Seq<char>, int)>) -> bool {
    forall|i: int| 0 <= i < t.len() ==> 0 <= (#[trigger] t[i]).1 <= 0x7FFF_FFFF
}

impl View for LabelTable {
    type V = Seq<(Seq<char>, int)>;

    open spec fn view(&self) -> Seq<(Seq<char>, int)> {
        Seq::new(
            self.entries@.len(),
            |i: int| (self.entries@[i].name@, self.entries@[i].address as int),
        )
    }
}

impl LabelTable {
    /// The address bound to `name`, if any.
    pub open spec fn spec_get(self, name: Seq<char>) -> Option<int> {
        spec_lookup(self@, name)
    }

    pub fn new() -> (r: Self)
        ensures
            r@ =~= Seq::<(Seq<char>, int)>::empty(),
    {
        LabelTable { entries: Vec::new() }
    }

    pub fn get(&self, name: &Vec<char>) -> (r: Option<usize>)
        ensures
            match r {
                Some(a) => self.spec_get(name@) == Some(a as int),
                None => self.spec_get(name@) is None,
            },
    {
        let mut i: usize = 0;
        proof {
            assert(self@.skip(0) =~= self@);
        }
        while i < self.entries.len()
            invariant
                i <= self.entries@.len(),
                self@.len() == self.entries@.len(),
                spec_lookup(self@, name@) == spec_lookup(self@.skip(i as int), name@),
            decreases self.entries@.len() - i,
        {
            if chars_eq(&self.entries[i].name, name) {
                proof {
                    assert(self@.skip(i as int)[0] == self@[i as int]);
                }
                return Some(self.entries[i].address);
            }
            proof {
                assert(self@.skip(i as int)[0] == self@[i as int]);
                assert(self@.skip(i as int).drop_first() =~= self@.skip(i + 1));
            }
            i += 1;
        }
        None
    }

    pub fn contains(&self, name: &Vec<char>) -> (r: bool)
        ensures
            r == (self.spec_get(name@) is Some),
    {
        match self.get(name) {
            Some(_) => true,
            None => false,
        }
    }

    pub fn insert(&mut self, name: Vec<char>, address: usize)
        ensures
            final(self)@ =~= old(self)@.push((name@, address as int)),
    {
        self.entries.push(LabelEntry { name, address });
        proof {
            assert(final(self)@ =~= old(self)@.push((name@, address as int)));
        }
    }
}

// ---------------------------------------------------------------------------
// Integer literals
// ---------------------------------------------------------------------------
/// The value of one digit character under `radix`, as `to_digit` reads it.
pub open spec fn spec_digit_val(c: char, radix: int) -> Option<int> {
    let u = c as int;
    let d = if 0x30 <= u <= 0x39 {
        u - 0x30
    } else if 0x61 <= u <= 0x7A {
        u - 0x61 + 10
    } else if 0x41 <= u <= 0x5A {
        u - 0x41 + 10
    } else {
        -1
    };
    if 0 <= d < radix {
        Some(d)
    } else {
        None
    }
}

/// Folds digits `s[i..]` onto `acc`; `None` on the first non-digit.
pub open spec fn spec_digits_val(s: Seq<char>, radix: int, i: int, acc: int) -> Option<int>
    decreases s.len() - i,
{
    if i < 0 || i >= s.len() {
        Some(acc)
    } else {
        match spec_digit_val(s[i], radix) {
            None => None,
            Some(d) => spec_digits_val(s, radix, i + 1, acc * radix + d),
        }
    }
}

/// The folded value only grows from its accumulator.
proof fn lemma_digits_val_ge(s: Seq<char>, radix: int, i: int, acc: int)
    requires
        radix >= 2,
        acc >= 0,
    ensures
        spec_digits_val(s, radix, i, acc) matches Some(v) ==> v >= acc,
    decreases s.len() - i,
{
    if i < 0 || i >= s.len() {
    } else {
        match spec_digit_val(s[i], radix) {
            None => {},
            Some(d) => {
                assert(acc * radix >= acc) by (nonlinear_arith)
                    requires
                        acc >= 0,
                        radix >= 2,
                ;
                lemma_digits_val_ge(s, radix, i + 1, acc * radix + d);
            },
        }
    }
}

/// What `i32::from_str_radix` makes of `s`: an optional sign, then at
/// least one digit; too large a magnitude fails.
pub open spec fn spec_parse_int_radix(s: Seq<char>, radix: int) -> Option<int> {
    let neg = s.len() > 0 && s[0] == '-';
    let rest = if s.len() > 0 && (s[0] == '-' || s[0] == '+') {
        s.drop_first()
    } else {
        s
    };
    if rest.len() == 0 {
        None
    } else {
        match spec_digits_val(rest, radix, 0, 0) {
            None => None,
            Some(mag) => if neg {
                if mag <= 0x8000_0000 {
                    Some(-mag)
                } else {
                    None
                }
            } else {
                if mag <= 0x7FFF_FFFF {
                    Some(mag)
                } else {
                    None
                }
            },
        }
    }
}

/// One digit under `radix`, as `to_digit` reads it.
fn digit_val(c: char, radix: u32) -> (r: Option<u32>)
    requires
        2 <= radix <= 16,
    ensures
        match r {
            Some(d) => spec_digit_val(c, radix as int) == Some(d as int),
            None => spec_digit_val(c, radix as int) is None,
        },
{
    let u = c as u32;
    let d: u32 = if 0x30 <= u && u <= 0x39 {
        u - 0x30
    } else if 0x61 <= u && u <= 0x7A {
        u - 0x61 + 10
    } else if 0x41 <= u && u <= 0x5A {
        u - 0x41 + 10
    } else {
        return None;
    };
    if d < radix {
        Some(d)
    } else {
        None
    }
}

/// Parses a signed integer in the given radix, as `i32::from_str_radix`
/// does: an optional `+`/`-`, then at least one digit.
pub fn parse_int_radix(v: &Vec<char>, radix: u32) -> (r: Option<i32>)
    requires
        2 <= radix <= 16,
    ensures
        match r {
            Some(x) => spec_parse_int_radix(v@, radix as int) == Some(x as int),
            None => spec_parse_int_radix(v@, radix as int) is None,
        },
{
    let n = v.len();
    let mut i: usize = 0;
    let mut neg = false;
    if n > 0 && (v[0] == '-' || v[0] == '+') {
        neg = v[0] == '-';
        i = 1;
    }
    let ghost rest = if v@.len() > 0 && (v@[0] == '-' || v@[0] == '+') {
        v@.drop_first()
    } else {
        v@
    };
    let ghost start = i as int;
    if i >= n {
        return None;
    }

    let mut acc: u64 = 0;
    let mut too_big = false;

    proof {
        if v@.len() > 0 && (v@[0] == '-' || v@[0] == '+') {
            assert(v@.drop_first() =~= v@.skip(1));
        } else {
            assert(v@.skip(0) =~= v@);
        }
    }
    while i < n
        invariant
            2 <= radix <= 16,
            start <= i <= n,
            n == v@.len(),
            start == if v@.len() > 0 && (v@[0] == '-' || v@[0] == '+') {
                1int
            } else {
                0int
            },
            rest == v@.skip(start),
            !too_big ==> acc <= 0xFFFF_FFFF && spec_digits_val(rest, radix as int, 0, 0)
                == spec_digits_val(rest, radix as int, i - start, acc as int),
            too_big ==> (spec_digits_val(rest, radix as int, 0, 0) is None || spec_digits_val(
                rest,
                radix as int,
                0,
                0,
            )->0 > 0xFFFF_FFFF),
        decreases n - i,
    {
        proof {
            assert(rest[i - start] == v@[i as int]);
        }
        match digit_val(v[i], radix) {
            None => {
                proof {
                    if v@.len() > 0 && (v@[0] == '-' || v@[0] == '+') {
                        assert(v@.drop_first() =~= v@.skip(1));
                    } else {
                        assert(v@.skip(0) =~= v@);
                    }
                    assert(rest.len() == n - start);
                    if !too_big {
                        assert(spec_digits_val(rest, radix as int, i - start, acc as int)
                            is None);
                    }
                }
                return None;
            },
            Some(d) => {
                if !too_big {
                    proof {
                        assert(acc as int * radix as int <= 0xFFFF_FFFFint * 16)
                            by (nonlinear_arith)
                            requires
                                0 <= acc <= 0xFFFF_FFFF,
                                0 <= radix <= 16,
                        ;
                    }
                    let next: u64 = acc * (radix as u64) + (d as u64);
                    if next > 0xFFFF_FFFF {
                        proof {
                            lemma_digits_val_ge(
                                rest,
                                radix as int,
                                i - start + 1,
                                acc as int * radix as int + d as int,
                            );
                        }
                        too_big = true;
                    } else {
                        acc = next;
                    }
                }
            },
        }
        i += 1;
    }

    proof {
        assert(rest.len() == n - start);
        if !too_big {
            assert(spec_digits_val(rest, radix as int, n - start, acc as int) == Some(
                acc as int,
            ));
        }
    }
    if too_big {
        return None;
    }
    if neg {
        if acc > 0x8000_0000 {
            None
        } else {
            Some((0i64 - acc as i64) as i32)
        }
    } else {
        if acc > 0x7FFF_FFFF {
            None
        } else {
            Some(acc as i32)
        }
    }
}

// ---------------------------------------------------------------------------
// Numeric literals
// ---------------------------------------------------------------------------
/// What `parse_prefixed_int` makes of a token: `0x`/`0X` hex, `0b`/`0B`
/// binary, `0o`/`0O` octal, else signed decimal.
pub open spec fn spec_parse_prefixed_int(t: Seq<char>) -> Option<int> {
    if t.len() >= 2 && t[0] == '0' && (t[1] == 'x' || t[1] == 'X') {
        spec_parse_int_radix(t.skip(2), 16)
    } else if t.len() >= 2 && t[0] == '0' && (t[1] == 'b' || t[1] == 'B') {
        spec_parse_int_radix(t.skip(2), 2)
    } else if t.len() >= 2 && t[0] == '0' && (t[1] == 'o' || t[1] == 'O') {
        spec_parse_int_radix(t.skip(2), 8)
    } else {
        spec_parse_int_radix(t, 10)
    }
}

/// What a numeric literal token denotes: after trimming, `$` becomes a
/// `0x` prefix; a single-quoted single character is its code point; else
/// the token is read as a prefixed integer.
pub open spec fn spec_parse_numeric(token: Seq<char>) -> Option<int> {
    let v = spec_trim(token);
    let t = if v.len() > 0 && v[0] == '$' {
        seq!['0', 'x'] + v.drop_first()
    } else {
        v
    };
    if t.len() == 3 && t[0] == '\'' && t[2] == '\'' {
        Some(t[1] as int)
    } else {
        spec_parse_prefixed_int(t)
    }
}

/// Parses one numeric literal token; any failure is an invalid value on
/// the given line.
pub fn parse_numeric_literal_chars(token: &Vec<char>, line_no: usize) -> (r: Result<
    i32,
    AssemblerError,
>)
    ensures
        match spec_parse_numeric(token@) {
            Some(val) => r matches Ok(x) && x == val,
            None => r matches Err(e) && is_asm_err(
                e,
                AsmErrorKind::InvalidValue,
                Some(line_no),
            ),
        },
{
    let v = trim_chars(token);
    let t: Vec<char> = if v.len() > 0 && v[0] == '$' {
        let mut t: Vec<char> = Vec::new();
        t.push('0');
        t.push('x');
        let mut tail = subrange_chars(&v, 1, v.len());
        t.append(&mut tail);
        proof {
            assert(t@ =~= seq!['0', 'x'] + v@.drop_first());
        }
        t
    } else {
        v
    };

    if t.len() == 3 && t[0] == '\'' && t[2] == '\'' {
        let code = char_code(t[1]);
        return Ok(code as i32);
    }

    let parsed: Option<i32> = if t.len() >= 2 && t[0] == '0' && (t[1] == 'x' || t[1] == 'X') {
        parse_int_radix(&subrange_chars(&t, 2, t.len()), 16)
    } else if t.len() >= 2 && t[0] == '0' && (t[1] == 'b' || t[1] == 'B') {
        parse_int_radix(&subrange_chars(&t, 2, t.len()), 2)
    } else if t.len() >= 2 && t[0] == '0' && (t[1] == 'o' || t[1] == 'O') {
        parse_int_radix(&subrange_chars(&t, 2, t.len()), 8)
    } else {
        parse_int_radix(&t, 10)
    };
    proof {
        assert(t@.subrange(2, t@.len() as int) =~= t@.skip(2));
    }
    match parsed {
        Some(x) => Ok(x),
        None => Err(AssemblerError::new(AsmErrorKind::InvalidValue, Some(line_no))),
    }
}

/// Parses one numeric literal token; any failure is an invalid value on
/// the given line.
pub fn parse_numeric_literal(token: &str, line_no: usize) -> (r: Result<i32, AssemblerError>)
    ensures
        match spec_parse_numeric(token@) {
            Some(val) => r matches Ok(x) && x == val,
            None => r matches Err(e) && is_asm_err(
                e,
                AsmErrorKind::InvalidValue,
                Some(line_no),
            ),
        },
{
    let v = chars_of(token);
    parse_numeric_literal_chars(&v, line_no)
}

/// What an operand token denotes: a label's address where the trimmed
/// token is bound, else a numeric literal.
pub open spec fn spec_parse_value(token: Seq<char>, table: Seq<(Seq<char>, int)>) -> Option<int> {
    match spec_lookup(table, spec_trim(token)) {
        Some(a) => Some(a),
        None => spec_parse_numeric(token),
    }
}

/// Resolves an operand token against the label table, falling back to a
/// numeric literal.
pub fn parse_value_chars(token: &Vec<char>, labels: &LabelTable, line_no: usize) -> (r: Result<
    i32,
    AssemblerError,
>)
    requires
        spec_addresses_ok(labels@),
    ensures
        match spec_parse_value(token@, labels@) {
            Some(val) => r matches Ok(x) && x == val,
            None => r matches Err(e) && is_asm_err(
                e,
                AsmErrorKind::InvalidValue,
                Some(line_no),
            ),
        },
{
    let trimmed = trim_chars(token);
    match labels.get(&trimmed) {
        Some(address) => {
            proof {
                lemma_lookup_addresses_ok(labels@, trimmed@);
            }
            Ok(address as i32)
        },
        None => parse_numeric_literal_chars(token, line_no),
    }
}

/// A found address obeys the table's address bound.
pub proof fn lemma_lookup_addresses_ok(t: Seq<(Seq<char>, int)>, name: Seq<char>)
    requires
        spec_addresses_ok(t),
    ensures
        spec_lookup(t, name) matches Some(a) ==> 0 <= a <= 0x7FFF_FFFF,
    decreases t.len(),
{
    if t.len() == 0 {
    } else if t[0].0 == name {
    } else {
        assert(spec_addresses_ok(t.drop_first())) by {
            assert(forall|i: int|
                0 <= i < t.drop_first().len() ==> #[trigger] t.drop_first()[i] == t[i + 1]);
        }
        lemma_lookup_addresses_ok(t.drop_first(), name);
    }
}

/// Resolves an operand token against the label table, falling back to a
/// numeric literal.
pub fn parse_value(token: &str, labels: &LabelTable, line_no: usize) -> (r: Result<
    i32,
    AssemblerError,
>)
    requires
        spec_addresses_ok(labels@),
    ensures
        match spec_parse_value(token@, labels@) {
            Some(val) => r matches Ok(x) && x == val,
            None => r matches Err(e) && is_asm_err(
                e,
                AsmErrorKind::InvalidValue,
                Some(line_no),
            ),
        },
{
    let v = chars_of(token);
    parse_value_chars(&v, labels, line_no)
}

/// Checks that `value` lies in `minimum..=maximum`; outside it, reports a
/// literal out of range on the given line.  (`_label` names the range in
/// a diagnostic and plays no part in the outcome.)
pub fn ensure_range(value: i32, minimum: i32, maximum: i32, _label: &str, line_no: usize) -> (r:
    Result<(), AssemblerError>)
    ensures
        minimum <= value <= maximum ==> r matches Ok(()),
        !(minimum <= value <= maximum) ==> (r matches Err(e) && is_asm_err(
            e,
            AsmErrorKind::OutOfRange,
            Some(line_no),
        )),
{
    if value < minimum || value > maximum {
        return Err(AssemblerError::new(AsmErrorKind::OutOfRange, Some(line_no)));
    }
    Ok(())
}

// ---------------------------------------------------------------------------
// Registers
// ---------------------------------------------------------------------------
/// The register index a token names: after trimming and uppercasing, `V`
/// followed by one hex digit, or by a decimal number up to 15.
pub open spec fn spec_parse_register(token: Seq<char>) -> Option<int> {
    let v = spec_upper(spec_trim(token));
    if v.len() == 0 || v[0] != 'V' {
        None
    } else {
        let rest = v.drop_first();
        if rest.len() == 1 && spec_digit_val(rest[0], 16) is Some {
            spec_digit_val(rest[0], 16)
        } else if rest.len() >= 1 && (forall|i: int|
            0 <= i < rest.len() ==> spec_digit_val(#[trigger] rest[i], 10) is Some) {
            match spec_digits_val(rest, 10, 0, 0) {
                Some(value) => if value <= 15 {
                    Some(value)
                } else {
                    None
                },
                None => None,
            }
        } else {
            None
        }
    }
}

/// Parses a register token; failure is an invalid register on the line.
pub fn parse_register_chars(token: &Vec<char>, line_no: usize) -> (r: Result<u16, AssemblerError>)
    ensures
        match spec_parse_register(token@) {
            Some(x) => r matches Ok(reg) && reg == x && 0 <= x <= 15,
            None => r matches Err(e) && is_asm_err(
                e,
                AsmErrorKind::InvalidRegister,
                Some(line_no),
            ),
        },
{
    let trimmed = trim_chars(token);
    let v = upper_chars(&trimmed);
    if v.len() == 0 || v[0] != 'V' {
        return Err(AssemblerError::new(AsmErrorKind::InvalidRegister, Some(line_no)));
    }
    let rest = subrange_chars(&v, 1, v.len());
    proof {
        assert(rest@ =~= spec_upper(spec_trim(token@)).drop_first());
        lemma_register_value_bound(rest@);
    }

    if rest.len() == 1 {
        match digit_val(rest[0], 16) {
            Some(d) => {
                return Ok(d as u16);
            },
            None => {},
        }
    }

    let mut i: usize = 0;
    let mut all_digits = rest.len() >= 1;
    while i < rest.len()
        invariant
            i <= rest@.len(),
            all_digits == (rest@.len() >= 1 && forall|j: int|
                0 <= j < i ==> spec_digit_val(#[trigger] rest@[j], 10) is Some),
        decreases rest@.len() - i,
    {
        match digit_val(rest[i], 10) {
            Some(_) => {},
            None => {
                all_digits = false;
            },
        }
        i += 1;
    }

    if all_digits {
        match parse_int_radix(&rest, 10) {
            Some(value) => {
                proof {
                    assert(rest@.drop_first() =~= rest@.skip(1));
                    assert(rest@.skip(0) =~= rest@);
                }
                if value <= 15 {
                    return Ok(value as u16);
                }
            },
            None => {},
        }
    }

    Err(AssemblerError::new(AsmErrorKind::InvalidRegister, Some(line_no)))
}

/// A register token of all decimal digits denotes a nonnegative value.
proof fn lemma_register_value_bound(rest: Seq<char>)
    ensures
        spec_digits_val(rest, 10, 0, 0) matches Some(v) ==> v >= 0,
{
    lemma_digits_val_ge(rest, 10, 0, 0);
}

/// Parses a register token; failure is an invalid register on the line.
pub fn parse_register(token: &str, line_no: usize) -> (r: Result<u16, AssemblerError>)
    ensures
        match spec_parse_register(token@) {
            Some(x) => r matches Ok(reg) && reg == x && 0 <= x <= 15,
            None => r matches Err(e) && is_asm_err(
                e,
                AsmErrorKind::InvalidRegister,
                Some(line_no),
            ),
        },
{
    let v = chars_of(token);
    parse_register_chars(&v, line_no)
}

/// Whether a token names a register.
pub fn is_register_chars(token: &Vec<char>) -> (r: bool)
    ensures
        r == (spec_parse_register(token@) is Some),
{
    match parse_register_chars(token, 0) {
        Ok(_) => true,
        Err(_) => false,
    }
}

/// Whether a token names a register.
pub fn is_register(token: &str) -> (r: bool)
    ensures
        r == (spec_parse_register(token@) is Some),
{
    let v = chars_of(token);
    is_register_chars(&v)
}


// ---------------------------------------------------------------------------
// The instruction encoder
// ---------------------------------------------------------------------------
/// Whether a token names a register.
pub open spec fn spec_is_reg(t: Seq<char>) -> bool {
    spec_parse_register(t) is Some
}

/// How many arguments were expected; the error for any other count.
pub fn expect_arg_count(arguments: &Vec<Vec<char>>, expected: usize, line_no: usize) -> (r:
    Result<(), AssemblerError>)
    ensures
        arguments@.len() == expected ==> r matches Ok(()),
        arguments@.len() != expected ==> (r matches Err(e) && is_asm_err(
            e,
            AsmErrorKind::WrongArgCount,
            Some(line_no),
        )),
{
    if arguments.len() != expected {
        return Err(AssemblerError::new(AsmErrorKind::WrongArgCount, Some(line_no)));
    }
    Ok(())
}

/// The 16-bit opcode for a mnemonic and its argument tokens, resolved
/// against the label table — or the failure that rejects them.  The
/// mnemonic is folded to uppercase first.
pub open spec fn spec_encode_instruction(
    mnemonic: Seq<char>,
    args: Seq<Seq<char>>,
    table: Seq<(Seq<char>, int)>,
) -> Result<int, AsmErrorKind> {
    let op = spec_upper(mnemonic);
    if op == "CLS"@ {
        if args.len() != 0 {
            Err(AsmErrorKind::WrongArgCount)
        } else {
            Ok(0x00E0)
        }
    } else if op == "RET"@ {
        if args.len() != 0 {
            Err(AsmErrorKind::WrongArgCount)
        } else {
            Ok(0x00EE)
        }
    } else if op == "EXIT"@ {
        if args.len() != 0 {
            Err(AsmErrorKind::WrongArgCount)
        } else {
            Ok(0x00FD)
        }
    } else if op == "JP"@ {
        if args.len() == 1 {
            match spec_parse_value(args[0], table) {
                None => Err(AsmErrorKind::InvalidValue),
                Some(address) => if !(0 <= address <= 0xFFF) {
                    Err(AsmErrorKind::OutOfRange)
                } else {
                    Ok(0x1000 + address)
                },
            }
        } else if args.len() == 2 {
            match spec_parse_register(args[0]) {
                None => Err(AsmErrorKind::InvalidRegister),
                Some(x) => match spec_parse_value(args[1], table) {
                    None => Err(AsmErrorKind::InvalidValue),
                    Some(nn) => if !(0 <= nn <= 0xFF) {
                        Err(AsmErrorKind::OutOfRange)
                    } else {
                        Ok(0xB000 + x * 0x100 + nn)
                    },
                },
            }
        } else {
            Err(AsmErrorKind::WrongArgCount)
        }
    } else if op == "CALL"@ {
        if args.len() != 1 {
            Err(AsmErrorKind::WrongArgCount)
        } else {
            match spec_parse_value(args[0], table) {
                None => Err(AsmErrorKind::InvalidValue),
                Some(address) => if !(0 <= address <= 0xFFF) {
                    Err(AsmErrorKind::OutOfRange)
                } else {
                    Ok(0x2000 + address)
                },
            }
        }
    } else if op == "SE"@ || op == "SNE"@ {
        let base_reg: int = if op == "SE"@ {
            0x5000
        } else {
            0x9000
        };
        let base_imm: int = if op == "SE"@ {
            0x3000
        } else {
            0x4000
        };
        if args.len() != 2 {
            Err(AsmErrorKind::WrongArgCount)
        } else {
            match spec_parse_register(args[0]) {
                None => Err(AsmErrorKind::InvalidRegister),
                Some(x) => if spec_is_reg(args[1]) {
                    match spec_parse_register(args[1]) {
                        Some(y) => Ok(base_reg + x * 0x100 + y * 0x10),
                        None => Err(AsmErrorKind::InvalidRegister),
                    }
                } else {
                    match spec_parse_value(args[1], table) {
                        None => Err(AsmErrorKind::InvalidValue),
                        Some(nn) => if !(0 <= nn <= 0xFF) {
                            Err(AsmErrorKind::OutOfRange)
                        } else {
                            Ok(base_imm + x * 0x100 + nn)
                        },
                    }
                },
            }
        }
    } else if op == "LD"@ {
        if args.len() != 2 {
            Err(AsmErrorKind::WrongArgCount)
        } else {
            spec_encode_ld(args, table)
        }
    } else if op == "ADD"@ {
        if args.len() != 2 {
            Err(AsmErrorKind::WrongArgCount)
        } else {
            spec_encode_add(args, table)
        }
    } else if op == "OR"@ || op == "AND"@ || op == "XOR"@ || op == "SUB"@ || op == "SUBN"@ {
        let tail: int = if op == "OR"@ {
            0x1
        } else if op == "AND"@ {
            0x2
        } else if op == "XOR"@ {
            0x3
        } else if op == "SUB"@ {
            0x5
        } else {
            0x7
        };
        if args.len() != 2 {
            Err(AsmErrorKind::WrongArgCount)
        } else {
            match spec_parse_register(args[0]) {
                None => Err(AsmErrorKind::InvalidRegister),
                Some(x) => match spec_parse_register(args[1]) {
                    None => Err(AsmErrorKind::InvalidRegister),
                    Some(y) => Ok(0x8000 + x * 0x100 + y * 0x10 + tail),
                },
            }
        }
    } else if op == "SHR"@ || op == "SHL"@ {
        let tail: int = if op == "SHR"@ {
            0x6
        } else {
            0xE
        };
        if args.len() != 1 && args.len() != 2 {
            Err(AsmErrorKind::WrongArgCount)
        } else {
            match spec_parse_register(args[0]) {
                None => Err(AsmErrorKind::InvalidRegister),
                Some(x) => if args.len() == 2 {
                    match spec_parse_register(args[1]) {
                        None => Err(AsmErrorKind::InvalidRegister),
                        Some(y) => Ok(0x8000 + x * 0x100 + y * 0x10 + tail),
                    }
                } else {
                    Ok(0x8000 + x * 0x100 + x * 0x10 + tail)
                },
            }
        }
    } else if op == "RND"@ {
        if args.len() != 2 {
            Err(AsmErrorKind::WrongArgCount)
        } else {
            match spec_parse_register(args[0]) {
                None => Err(AsmErrorKind::InvalidRegister),
                Some(x) => match spec_parse_value(args[1], table) {
                    None => Err(AsmErrorKind::InvalidValue),
                    Some(nn) => if !(0 <= nn <= 0xFF) {
                        Err(AsmErrorKind::OutOfRange)
                    } else {
                        Ok(0xC000 + x * 0x100 + nn)
                    },
                },
            }
        }
    } else if op == "DRW"@ {
        if args.len() != 3 {
            Err(AsmErrorKind::WrongArgCount)
        } else {
            match spec_parse_register(args[0]) {
                None => Err(AsmErrorKind::InvalidRegister),
                Some(x) => match spec_parse_register(args[1]) {
                    None => Err(AsmErrorKind::InvalidRegister),
                    Some(y) => match spec_parse_value(args[2], table) {
                        None => Err(AsmErrorKind::InvalidValue),
                        Some(n) => if !(0 <= n <= 0xF) {
                            Err(AsmErrorKind::OutOfRange)
                        } else {
                            Ok(0xD000 + x * 0x100 + y * 0x10 + n)
                        },
                    },
                },
            }
        }
    } else if op == "SKP"@ || op == "SKNP"@ {
        let base: int = if op == "SKP"@ {
            0xE09E
        } else {
            0xE0A1
        };
        if args.len() != 1 {
            Err(AsmErrorKind::WrongArgCount)
        } else {
            match spec_parse_register(args[0]) {
                None => Err(AsmErrorKind::InvalidRegister),
                Some(x) => Ok(base + x * 0x100),
            }
        }
    } else {
        Err(AsmErrorKind::UnknownMnemonic)
    }
}

/// The `LD` forms: two register-or-special operands select the encoding.
pub open spec fn spec_encode_ld(args: Seq<Seq<char>>, table: Seq<(Seq<char>, int)>) -> Result<
    int,
    AsmErrorKind,
> {
    let dest = spec_upper(spec_trim(args[0]));
    let src = spec_upper(spec_trim(args[1]));
    if spec_is_reg(dest) {
        match spec_parse_register(dest) {
            None => Err(AsmErrorKind::InvalidRegister),
            Some(x) => if spec_is_reg(src) {
                match spec_parse_register(src) {
                    None => Err(AsmErrorKind::InvalidRegister),
                    Some(y) => Ok(0x8000 + x * 0x100 + y * 0x10),
                }
            } else if src == "DT"@ {
                Ok(0xF007 + x * 0x100)
            } else if src == "K"@ {
                Ok(0xF00A + x * 0x100)
            } else if src == "[I]"@ {
                Ok(0xF065 + x * 0x100)
            } else {
                match spec_parse_value(args[1], table) {
                    None => Err(AsmErrorKind::InvalidValue),
                    Some(nn) => if !(0 <= nn <= 0xFF) {
                        Err(AsmErrorKind::OutOfRange)
                    } else {
                        Ok(0x6000 + x * 0x100 + nn)
                    },
                }
            },
        }
    } else if dest == "I"@ {
        match spec_parse_value(args[1], table) {
            None => Err(AsmErrorKind::InvalidValue),
            Some(address) => if !(0 <= address <= 0xFFF) {
                Err(AsmErrorKind::OutOfRange)
            } else {
                Ok(0xA000 + address)
            },
        }
    } else if dest == "DT"@ || dest == "ST"@ || dest == "F"@ || dest == "B"@ || dest == "[I]"@ {
        let base: int = if dest == "DT"@ {
            0xF015
        } else if dest == "ST"@ {
            0xF018
        } else if dest == "F"@ {
            0xF029
        } else if dest == "B"@ {
            0xF033
        } else {
            0xF055
        };
        match spec_parse_register(args[1]) {
            None => Err(AsmErrorKind::InvalidRegister),
            Some(x) => Ok(base + x * 0x100),
        }
    } else {
        Err(AsmErrorKind::UnsupportedOperands)
    }
}

/// The `ADD` forms: `ADD I, Vx`, `ADD Vx, Vy`, `ADD Vx, kk`.
pub open spec fn spec_encode_add(args: Seq<Seq<char>>, table: Seq<(Seq<char>, int)>) -> Result<
    int,
    AsmErrorKind,
> {
    let dest = spec_upper(spec_trim(args[0]));
    if dest == "I"@ {
        match spec_parse_register(args[1]) {
            None => Err(AsmErrorKind::InvalidRegister),
            Some(x) => Ok(0xF01E + x * 0x100),
        }
    } else {
        match spec_parse_register(args[0]) {
            None => Err(AsmErrorKind::InvalidRegister),
            Some(x) => if spec_is_reg(args[1]) {
                match spec_parse_register(args[1]) {
                    None => Err(AsmErrorKind::InvalidRegister),
                    Some(y) => Ok(0x8004 + x * 0x100 + y * 0x10),
                }
            } else {
                match spec_parse_value(args[1], table) {
                    None => Err(AsmErrorKind::InvalidValue),
                    Some(nn) => if !(0 <= nn <= 0xFF) {
                        Err(AsmErrorKind::OutOfRange)
                    } else {
                        Ok(0x7000 + x * 0x100 + nn)
                    },
                }
            },
        }
    }
}

/// That `r` realises the spec encoding on line `line_no`: the same opcode,
/// or the error the spec names, on that line.
pub open spec fn encode_matches(
    out: Result<int, AsmErrorKind>,
    r: Result<u16, AssemblerError>,
    line_no: usize,
) -> bool {
    match out {
        Ok(code) => r matches Ok(c) && c == code,
        Err(kind) => r matches Err(e) && is_asm_err(e, kind, Some(line_no)),
    }
}


/// Encodes one instruction from its mnemonic and argument tokens,
/// resolving label operands against the table; see
/// `spec_encode_instruction` for the exact encoding and failures.
#[verifier::rlimit(100)]
pub fn encode_instruction_chars(
    mnemonic: &Vec<char>,
    arguments: &Vec<Vec<char>>,
    labels: &LabelTable,
    line_no: usize,
) -> (r: Result<u16, AssemblerError>)
    requires
        spec_addresses_ok(labels@),
    ensures
        encode_matches(
            spec_encode_instruction(mnemonic@, arguments.deep_view(), labels@),
            r,
            line_no,
        ),
{
    let ghost aa = arguments.deep_view();
    proof {
        assert forall|i: int| 0 <= i < arguments@.len() implies #[trigger] aa[i]
            == arguments@[i]@ by {
            assert(aa[i] =~= arguments@[i]@);
        }
    }
    let op = upper_chars(mnemonic);

    if text_is(&op, "CLS") {
        expect_arg_count(arguments, 0, line_no)?;
        return Ok(0x00E0);
    }
    if text_is(&op, "RET") {
        expect_arg_count(arguments, 0, line_no)?;
        return Ok(0x00EE);
    }
    if text_is(&op, "EXIT") {
        expect_arg_count(arguments, 0, line_no)?;
        return Ok(0x00FD);
    }

    if text_is(&op, "JP") {
        if arguments.len() == 1 {
            let address = parse_value_chars(&arguments[0], labels, line_no)?;
            ensure_range(address, 0, 0x0FFF, "address", line_no)?;
            return Ok(0x1000 + address as u16);
        }
        if arguments.len() == 2 {
            let x_reg = parse_register_chars(&arguments[0], line_no)?;
            let nn = parse_value_chars(&arguments[1], labels, line_no)?;
            ensure_range(nn, 0, 0x00FF, "byte", line_no)?;
            return Ok(0xB000 + x_reg * 0x100 + nn as u16);
        }
        return Err(AssemblerError::new(AsmErrorKind::WrongArgCount, Some(line_no)));
    }

    if text_is(&op, "CALL") {
        expect_arg_count(arguments, 1, line_no)?;
        let address = parse_value_chars(&arguments[0], labels, line_no)?;
        ensure_range(address, 0, 0x0FFF, "address", line_no)?;
        return Ok(0x2000 + address as u16);
    }

    if text_is(&op, "SE") {
        expect_arg_count(arguments, 2, line_no)?;
        let x_reg = parse_register_chars(&arguments[0], line_no)?;
        if is_register_chars(&arguments[1]) {
            let y_reg = parse_register_chars(&arguments[1], line_no)?;
            return Ok(0x5000 + x_reg * 0x100 + y_reg * 0x10);
        }
        let nn = parse_value_chars(&arguments[1], labels, line_no)?;
        ensure_range(nn, 0, 0x00FF, "byte", line_no)?;
        return Ok(0x3000 + x_reg * 0x100 + nn as u16);
    }

    if text_is(&op, "SNE") {
        expect_arg_count(arguments, 2, line_no)?;
        let x_reg = parse_register_chars(&arguments[0], line_no)?;
        if is_register_chars(&arguments[1]) {
            let y_reg = parse_register_chars(&arguments[1], line_no)?;
            return Ok(0x9000 + x_reg * 0x100 + y_reg * 0x10);
        }
        let nn = parse_value_chars(&arguments[1], labels, line_no)?;
        ensure_range(nn, 0, 0x00FF, "byte", line_no)?;
        return Ok(0x4000 + x_reg * 0x100 + nn as u16);
    }

    if text_is(&op, "LD") {
        expect_arg_count(arguments, 2, line_no)?;
        let dest_t = trim_chars(&arguments[0]);
        let dest = upper_chars(&dest_t);
        let src_t = trim_chars(&arguments[1]);
        let src = upper_chars(&src_t);

        if is_register_chars(&dest) {
            let x_reg = parse_register_chars(&dest, line_no)?;
            if is_register_chars(&src) {
                let y_reg = parse_register_chars(&src, line_no)?;
                return Ok(0x8000 + x_reg * 0x100 + y_reg * 0x10);
            }
            if text_is(&src, "DT") {
                return Ok(0xF007 + x_reg * 0x100);
            }
            if text_is(&src, "K") {
                return Ok(0xF00A + x_reg * 0x100);
            }
            if text_is(&src, "[I]") {
                return Ok(0xF065 + x_reg * 0x100);
            }
            let nn = parse_value_chars(&arguments[1], labels, line_no)?;
            ensure_range(nn, 0, 0x00FF, "byte", line_no)?;
            return Ok(0x6000 + x_reg * 0x100 + nn as u16);
        }

        if text_is(&dest, "I") {
            let address = parse_value_chars(&arguments[1], labels, line_no)?;
            ensure_range(address, 0, 0x0FFF, "address", line_no)?;
            return Ok(0xA000 + address as u16);
        }
        if text_is(&dest, "DT") {
            return Ok(0xF015 + parse_register_chars(&arguments[1], line_no)? * 0x100);
        }
        if text_is(&dest, "ST") {
            return Ok(0xF018 + parse_register_chars(&arguments[1], line_no)? * 0x100);
        }
        if text_is(&dest, "F") {
            return Ok(0xF029 + parse_register_chars(&arguments[1], line_no)? * 0x100);
        }
        if text_is(&dest, "B") {
            return Ok(0xF033 + parse_register_chars(&arguments[1], line_no)? * 0x100);
        }
        if text_is(&dest, "[I]") {
            return Ok(0xF055 + parse_register_chars(&arguments[1], line_no)? * 0x100);
        }

        return Err(AssemblerError::new(AsmErrorKind::UnsupportedOperands, Some(line_no)));
    }

    if text_is(&op, "ADD") {
        expect_arg_count(arguments, 2, line_no)?;
        let dest_t = trim_chars(&arguments[0]);
        let dest = upper_chars(&dest_t);

        if text_is(&dest, "I") {
            return Ok(0xF01E + parse_register_chars(&arguments[1], line_no)? * 0x100);
        }

        let x_reg = parse_register_chars(&arguments[0], line_no)?;
        if is_register_chars(&arguments[1]) {
            let y_reg = parse_register_chars(&arguments[1], line_no)?;
            return Ok(0x8004 + x_reg * 0x100 + y_reg * 0x10);
        }

        let nn = parse_value_chars(&arguments[1], labels, line_no)?;
        ensure_range(nn, 0, 0x00FF, "byte", line_no)?;
        return Ok(0x7000 + x_reg * 0x100 + nn as u16);
    }

    if text_is(&op, "OR") || text_is(&op, "AND") || text_is(&op, "XOR") || text_is(&op, "SUB")
        || text_is(&op, "SUBN") {
        expect_arg_count(arguments, 2, line_no)?;
        let x_reg = parse_register_chars(&arguments[0], line_no)?;
        let y_reg = parse_register_chars(&arguments[1], line_no)?;
        let tail: u16 = if text_is(&op, "OR") {
            0x1
        } else if text_is(&op, "AND") {
            0x2
        } else if text_is(&op, "XOR") {
            0x3
        } else if text_is(&op, "SUB") {
            0x5
        } else {
            0x7
        };
        return Ok(0x8000 + x_reg * 0x100 + y_reg * 0x10 + tail);
    }

    if text_is(&op, "SHR") || text_is(&op, "SHL") {
        if arguments.len() != 1 && arguments.len() != 2 {
            return Err(AssemblerError::new(AsmErrorKind::WrongArgCount, Some(line_no)));
        }
        let x_reg = parse_register_chars(&arguments[0], line_no)?;
        let y_reg = if arguments.len() == 2 {
            parse_register_chars(&arguments[1], line_no)?
        } else {
            x_reg
        };
        let tail: u16 = if text_is(&op, "SHR") {
            0x6
        } else {
            0xE
        };
        return Ok(0x8000 + x_reg * 0x100 + y_reg * 0x10 + tail);
    }

    if text_is(&op, "RND") {
        expect_arg_count(arguments, 2, line_no)?;
        let x_reg = parse_register_chars(&arguments[0], line_no)?;
        let nn = parse_value_chars(&arguments[1], labels, line_no)?;
        ensure_range(nn, 0, 0x00FF, "byte", line_no)?;
        return Ok(0xC000 + x_reg * 0x100 + nn as u16);
    }

    if text_is(&op, "DRW") {
        expect_arg_count(arguments, 3, line_no)?;
        let x_reg = parse_register_chars(&arguments[0], line_no)?;
        let y_reg = parse_register_chars(&arguments[1], line_no)?;
        let n = parse_value_chars(&arguments[2], labels, line_no)?;
        ensure_range(n, 0, 0x000F, "nibble", line_no)?;
        return Ok(0xD000 + x_reg * 0x100 + y_reg * 0x10 + n as u16);
    }

    if text_is(&op, "SKP") {
        expect_arg_count(arguments, 1, line_no)?;
        let x_reg = parse_register_chars(&arguments[0], line_no)?;
        return Ok(0xE09E + x_reg * 0x100);
    }

    if text_is(&op, "SKNP") {
        expect_arg_count(arguments, 1, line_no)?;
        let x_reg = parse_register_chars(&arguments[0], line_no)?;
        return Ok(0xE0A1 + x_reg * 0x100);
    }

    Err(AssemblerError::new(AsmErrorKind::UnknownMnemonic, Some(line_no)))
}

/// Encodes one instruction given as strings; see `encode_instruction_chars`.
pub fn encode_instruction(
    mnemonic: &str,
    arguments: &Vec<String>,
    labels: &LabelTable,
    line_no: usize,
) -> (r: Result<u16, AssemblerError>)
    requires
        spec_addresses_ok(labels@),
    ensures
        encode_matches(
            spec_encode_instruction(mnemonic@, arguments.deep_view(), labels@),
            r,
            line_no,
        ),
{
    let m = chars_of(mnemonic);
    let mut args: Vec<Vec<char>> = Vec::new();
    let mut i: usize = 0;
    while i < arguments.len()
        invariant
            i <= arguments@.len(),
            args@.len() == i,
            forall|j: int| 0 <= j < i ==> args@[j]@ == arguments@[j]@,
        decreases arguments.len() - i,
    {
        args.push(chars_of(arguments[i].as_str()));
        i += 1;
    }
    proof {
        assert(args.deep_view() =~~= arguments.deep_view());
    }
    encode_instruction_chars(&m, &args, labels, line_no)
}

} // verus!
