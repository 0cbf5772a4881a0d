use vstd::prelude::*;

use crate::assembler::error::{is_asm_err, AsmErrorKind, AssemblerError};
use crate::assembler::text::{
    char_code, chars_of, is_whitespace_char, lemma_deep_view_char_vecs, spec_is_ws, spec_trim,
    spec_upper, subrange_chars, text_is, trim_chars, upper_chars,
};

verus! {

/// What a source line asks the assembler to do.
#[derive(Debug, Clone, Copy, PartialEq, Eq, Structural)]
pub enum StatementKind {
    DirectiveOrg,
    DirectiveDb,
    DirectiveDw,
    Instruction,
}

/// One parsed source statement: the line it came from, its kind, the
/// normalized operation, and the raw argument tokens.
pub struct Statement {
    pub line_no: usize,
    pub kind: StatementKind,
    pub operation: Vec<char>,
    pub arguments: Vec<Vec<char>>,
}

/// The mathematical model of a `Statement`.
#[verifier::ext_equal]
pub struct SpecStatement {
    pub line_no: int,
    pub kind: StatementKind,
    pub operation: Seq<char>,
    pub arguments: Seq<Seq<char>>,
}

impl View for Statement {
    type V = SpecStatement;

    open spec fn view(&self) -> SpecStatement {
        SpecStatement {
            line_no: self.line_no as int,
            kind: self.kind,
            operation: self.operation@,
            arguments: self.arguments.deep_view(),
        }
    }
}

// ---------------------------------------------------------------------------
// Line lexing
// ---------------------------------------------------------------------------
/// The line up to its first `;` or `#` outside quotes, scanning from `i`
/// with `q` the currently open quote character.
pub open spec fn spec_strip_from(s: Seq<char>, i: int, q: Option<char>) -> Seq<char>
    decreases s.len() - i,
{
    if i < 0 || i >= s.len() {
        s
    } else if s[i] == '\'' || s[i] == '"' {
        let q2 = if q is None {
            Some(s[i])
        } else if q == Some(s[i]) {
            None
        } else {
            q
        };
        spec_strip_from(s, i + 1, q2)
    } else if (s[i] == ';' || s[i] == '#') && q is None {
        s.take(i)
    } else {
        spec_strip_from(s, i + 1, q)
    }
}

/// The line with any comment removed: `;` or `#` outside a quoted region
/// ends it.
pub open spec fn spec_strip_comments(s: Seq<char>) -> Seq<char> {
    spec_strip_from(s, 0, None)
}

/// Removes any `;` or `#` comment outside quotes.
pub fn strip_comments(line: &Vec<char>) -> (r: Vec<char>)
    ensures
        r@ == spec_strip_comments(line@),
{
    let mut i: usize = 0;
    let mut quote: Option<char> = None;
    while i < line.len()
        invariant
            i <= line@.len(),
            spec_strip_comments(line@) == spec_strip_from(line@, i as int, quote),
        decreases line@.len() - i,
    {
        let c = line[i];
        if c == '\'' || c == '"' {
            quote = match quote {
                None => Some(c),
                Some(open) => if open == c {
                    None
                } else {
                    Some(open)
                },
            };
        } else if (c == ';' || c == '#') && quote.is_none() {
            return subrange_chars(line, 0, i);
        }
        i += 1;
    }
    proof {
        assert(line@.take(line@.len() as int) =~= line@);
    }
    subrange_chars(line, 0, line.len())
}

/// The index of the first `:` at or after `i`, if any.
pub open spec fn spec_find_colon(s: Seq<char>, i: int) -> Option<int>
    decreases s.len() - i,
{
    if i < 0 || i >= s.len() {
        None
    } else if s[i] == ':' {
        Some(i)
    } else {
        spec_find_colon(s, i + 1)
    }
}

fn find_colon(v: &Vec<char>) -> (r: Option<usize>)
    ensures
        match r {
            Some(i) => spec_find_colon(v@, 0) == Some(i as int) && i < v@.len(),
            None => spec_find_colon(v@, 0) is None,
        },
{
    let mut i: usize = 0;
    while i < v.len()
        invariant
            i <= v@.len(),
            spec_find_colon(v@, 0) == spec_find_colon(v@, i as int),
        decreases v@.len() - i,
    {
        if v[i] == ':' {
            return Some(i);
        }
        i += 1;
    }
    None
}

/// Whether the text holds any whitespace.
pub open spec fn spec_has_ws(s: Seq<char>) -> bool {
    exists|i: int| 0 <= i < s.len() && spec_is_ws(s[i])
}

fn has_ws(v: &Vec<char>) -> (r: bool)
    ensures
        r == spec_has_ws(v@),
{
    let mut i: usize = 0;
    while i < v.len()
        invariant
            i <= v@.len(),
            forall|j: int| 0 <= j < i ==> !spec_is_ws(v@[j]),
        decreases v@.len() - i,
    {
        if is_whitespace_char(v[i]) {
            return true;
        }
        i += 1;
    }
    false
}

/// A label is `[A-Za-z_][A-Za-z0-9_]*`.
pub open spec fn spec_is_valid_label(s: Seq<char>) -> bool {
    let ok_start = ('A' <= s[0] && s[0] <= 'Z') || ('a' <= s[0] && s[0] <= 'z') || s[0] == '_';
    &&& s.len() > 0
    &&& ok_start
    &&& forall|i: int|
        1 <= i < s.len() ==> (('A' <= #[trigger] s[i] && s[i] <= 'Z') || ('a' <= s[i] && s[i]
            <= 'z') || ('0' <= s[i] && s[i] <= '9') || s[i] == '_')
}

/// Checks the label grammar; a violation is an invalid label on the line.
pub fn validate_label(label: &Vec<char>, line_no: usize) -> (r: Result<(), AssemblerError>)
    ensures
        spec_is_valid_label(label@) ==> r matches Ok(()),
        !spec_is_valid_label(label@) ==> (r matches Err(e) && is_asm_err(
            e,
            AsmErrorKind::InvalidLabel,
            Some(line_no),
        )),
{
    if label.len() == 0 {
        return Err(AssemblerError::new(AsmErrorKind::InvalidLabel, Some(line_no)));
    }
    let c0 = label[0];
    if !(('A' <= c0 && c0 <= 'Z') || ('a' <= c0 && c0 <= 'z') || c0 == '_') {
        return Err(AssemblerError::new(AsmErrorKind::InvalidLabel, Some(line_no)));
    }
    let mut i: usize = 1;
    while i < label.len()
        invariant
            1 <= i <= label@.len(),
            forall|j: int|
                1 <= j < i ==> (('A' <= #[trigger] label@[j] && label@[j] <= 'Z') || ('a'
                    <= label@[j] && label@[j] <= 'z') || ('0' <= label@[j] && label@[j] <= '9')
                    || label@[j] == '_'),
        decreases label@.len() - i,
    {
        let c = label[i];
        if !(('A' <= c && c <= 'Z') || ('a' <= c && c <= 'z') || ('0' <= c && c <= '9') || c
            == '_') {
            return Err(AssemblerError::new(AsmErrorKind::InvalidLabel, Some(line_no)));
        }
        i += 1;
    }
    Ok(())
}

/// Splits leading `label:` prefixes off a line.  Scanning stops at the
/// first colon whose left side is empty or holds whitespace; the labels
/// found so far and the trimmed remainder are returned.  A malformed
/// label fails.
pub open spec fn spec_split_labels_from(rem: Seq<char>, acc: Seq<Seq<char>>) -> Result<
    (Seq<Seq<char>>, Seq<char>),
    AsmErrorKind,
>
    decreases rem.len(),
{
    match spec_find_colon(rem, 0) {
        None => Ok((acc, spec_trim(rem))),
        Some(ci) => if !(0 <= ci < rem.len()) {
            // `spec_find_colon` never answers outside the text.
            Ok((acc, spec_trim(rem)))
        } else {
            let before = spec_trim(rem.take(ci));
            if before.len() == 0 || spec_has_ws(before) {
                Ok((acc, spec_trim(rem)))
            } else if !spec_is_valid_label(before) {
                Err(AsmErrorKind::InvalidLabel)
            } else {
                spec_split_labels_from(rem.skip(ci + 1), acc.push(before))
            }
        },
    }
}

/// Splits leading `label:` prefixes off a line; see
/// `spec_split_labels_from`.
pub fn split_labels(content: &Vec<char>, line_no: usize) -> (r: Result<
    (Vec<Vec<char>>, Vec<char>),
    AssemblerError,
>)
    ensures
        match r {
            Ok((labels, remainder)) => spec_split_labels_from(content@, Seq::empty()) == Ok::<
                _,
                AsmErrorKind,
            >((labels.deep_view(), remainder@)),
            Err(e) => spec_split_labels_from(content@, Seq::empty()) matches Err(k)
                && is_asm_err(e, k, Some(line_no)),
        },
{
    let mut labels: Vec<Vec<char>> = Vec::new();
    let mut remainder: Vec<char> = subrange_chars(content, 0, content.len());
    proof {
        assert(remainder@ =~= content@);
        lemma_deep_view_char_vecs(labels);
        assert(labels.deep_view() =~= Seq::<Seq<char>>::empty());
    }

    loop
        invariant
            spec_split_labels_from(content@, Seq::empty()) == spec_split_labels_from(
                remainder@,
                labels.deep_view(),
            ),
        ensures
            spec_split_labels_from(content@, Seq::empty()) == spec_split_labels_from(
                remainder@,
                labels.deep_view(),
            ),
            spec_find_colon(remainder@, 0) matches Some(ci) ==> {
                let before = spec_trim(remainder@.take(ci));
                before.len() == 0 || spec_has_ws(before)
            },
            spec_find_colon(remainder@, 0) is None ==> true,
        decreases remainder@.len(),
    {
        let ci = match find_colon(&remainder) {
            None => {
                break ;
            },
            Some(ci) => ci,
        };
        let before_raw = subrange_chars(&remainder, 0, ci);
        let before = trim_chars(&before_raw);
        proof {
            assert(before_raw@ =~= remainder@.take(ci as int));
        }
        if before.len() == 0 || has_ws(&before) {
            break ;
        }
        match validate_label(&before, line_no) {
            Ok(()) => {},
            Err(e) => {
                return Err(e);
            },
        }
        let ghost dv = labels.deep_view();
        let n = remainder.len();
        proof {
            assert(ci < n);
        }
        let after = subrange_chars(&remainder, ci + 1, n);
        proof {
            assert(after@ =~= remainder@.skip(ci + 1));
        }
        labels.push(before);
        remainder = after;
        proof {
            lemma_deep_view_char_vecs(labels);
            assert(labels.deep_view() =~= dv.push(labels@[labels@.len() - 1]@));
        }
    }

    let trimmed = trim_chars(&remainder);
    Ok((labels, trimmed))
}

/// The index of the first whitespace character at or after `i`, if any.
pub open spec fn spec_find_ws(s: Seq<char>, i: int) -> Option<int>
    decreases s.len() - i,
{
    if i < 0 || i >= s.len() {
        None
    } else if spec_is_ws(s[i]) {
        Some(i)
    } else {
        spec_find_ws(s, i + 1)
    }
}

/// A found whitespace index lies within the text.
pub proof fn lemma_find_ws_range(s: Seq<char>, i: int)
    requires
        0 <= i,
    ensures
        spec_find_ws(s, i) matches Some(w) ==> i <= w < s.len(),
    decreases s.len() - i,
{
    if i >= s.len() {
    } else if spec_is_ws(s[i]) {
    } else {
        lemma_find_ws_range(s, i + 1);
    }
}

/// The operation token and the argument list of a statement: the text
/// before the first whitespace, and the rest split on commas.
pub open spec fn spec_split_op_args(s: Seq<char>) -> (Seq<char>, Seq<Seq<char>>) {
    match spec_find_ws(s, 0) {
        None => (s, Seq::empty()),
        Some(i) => (s.take(i), spec_split_args(s.skip(i + 1))),
    }
}

/// Splits an argument text on commas outside quotes, trimming each token
/// and dropping empty ones; scanning state: position, open quote, token
/// so far, arguments so far.
pub open spec fn spec_split_args_from(
    s: Seq<char>,
    i: int,
    q: Option<char>,
    tok: Seq<char>,
    acc: Seq<Seq<char>>,
) -> Seq<Seq<char>>
    decreases s.len() - i,
{
    if i < 0 || i >= s.len() {
        if spec_trim(tok).len() > 0 {
            acc.push(spec_trim(tok))
        } else {
            acc
        }
    } else {
        let c = s[i];
        if c == '\'' || c == '"' {
            let q2 = if q is None {
                Some(c)
            } else if q == Some(c) {
                None
            } else {
                q
            };
            spec_split_args_from(s, i + 1, q2, tok.push(c), acc)
        } else if c == ',' && q is None {
            let acc2 = if spec_trim(tok).len() > 0 {
                acc.push(spec_trim(tok))
            } else {
                acc
            };
            spec_split_args_from(s, i + 1, q, Seq::empty(), acc2)
        } else {
            spec_split_args_from(s, i + 1, q, tok.push(c), acc)
        }
    }
}

/// The comma-split argument tokens of a text.
pub open spec fn spec_split_args(s: Seq<char>) -> Seq<Seq<char>> {
    spec_split_args_from(s, 0, None, Seq::empty(), Seq::empty())
}

/// Splits an argument text on commas outside quotes; see
/// `spec_split_args`.
pub fn split_arguments(text: &Vec<char>) -> (r: Vec<Vec<char>>)
    ensures
        r.deep_view() == spec_split_args(text@),
{
    let mut args: Vec<Vec<char>> = Vec::new();
    let mut token: Vec<char> = Vec::new();
    let mut quote: Option<char> = None;
    let mut i: usize = 0;
    proof {
        lemma_deep_view_char_vecs(args);
        assert(args.deep_view() =~= Seq::<Seq<char>>::empty());
        assert(token@ =~= Seq::<char>::empty());
    }

    while i < text.len()
        invariant
            i <= text@.len(),
            spec_split_args(text@) == spec_split_args_from(
                text@,
                i as int,
                quote,
                token@,
                args.deep_view(),
            ),
        decreases text@.len() - i,
    {
        let c = text[i];
        if c == '\'' || c == '"' {
            quote = match quote {
                None => Some(c),
                Some(open) => if open == c {
                    None
                } else {
                    Some(open)
                },
            };
            token.push(c);
        } else if c == ',' && quote.is_none() {
            let trimmed = trim_chars(&token);
            if trimmed.len() > 0 {
                let ghost dv = args.deep_view();
                args.push(trimmed);
                proof {
                    lemma_deep_view_char_vecs(args);
                    assert(args.deep_view() =~= dv.push(args@[args@.len() - 1]@));
                }
            }
            token = Vec::new();
            proof {
                assert(token@ =~= Seq::<char>::empty());
            }
        } else {
            token.push(c);
        }
        i += 1;
    }

    let tail = trim_chars(&token);
    if tail.len() > 0 {
        let ghost dv = args.deep_view();
        args.push(tail);
        proof {
            lemma_deep_view_char_vecs(args);
            assert(args.deep_view() =~= dv.push(args@[args@.len() - 1]@));
        }
    }
    args
}

/// Splits a statement text into its operation and arguments; see
/// `spec_split_op_args`.
pub fn split_operation_and_arguments(text: &Vec<char>) -> (r: (Vec<char>, Vec<Vec<char>>))
    ensures
        r.0@ == spec_split_op_args(text@).0,
        r.1.deep_view() == spec_split_op_args(text@).1,
{
    let mut i: usize = 0;
    while i < text.len() && !is_whitespace_char(text[i])
        invariant
            i <= text@.len(),
            spec_find_ws(text@, 0) == spec_find_ws(text@, i as int),
            forall|j: int| 0 <= j < i ==> !spec_is_ws(text@[j]),
        decreases text@.len() - i,
    {
        i += 1;
    }
    if i >= text.len() {
        let op = subrange_chars(text, 0, text.len());
        proof {
            assert(op@ =~= text@);
        }
        let args: Vec<Vec<char>> = Vec::new();
        proof {
            lemma_deep_view_char_vecs(args);
            assert(args.deep_view() =~= Seq::<Seq<char>>::empty());
        }
        (op, args)
    } else {
        let op = subrange_chars(text, 0, i);
        let rest = subrange_chars(text, i + 1, text.len());
        proof {
            assert(op@ =~= text@.take(i as int));
            assert(rest@ =~= text@.skip(i + 1));
        }
        let args = split_arguments(&rest);
        (op, args)
    }
}

/// The normalized operation: trimmed, leading dots stripped, uppercased.
pub open spec fn spec_strip_dots(s: Seq<char>) -> Seq<char>
    decreases s.len(),
{
    if s.len() > 0 && s[0] == '.' {
        spec_strip_dots(s.drop_first())
    } else {
        s
    }
}

pub open spec fn spec_normalize_operation(s: Seq<char>) -> Seq<char> {
    spec_upper(spec_strip_dots(spec_trim(s)))
}

/// Normalizes an operation token; see `spec_normalize_operation`.
pub fn normalize_operation(operation: &Vec<char>) -> (r: Vec<char>)
    ensures
        r@ == spec_normalize_operation(operation@),
{
    let t = trim_chars(operation);
    let mut start: usize = 0;
    proof {
        assert(t@.skip(0) =~= t@);
    }
    while start < t.len() && t[start] == '.'
        invariant
            start <= t@.len(),
            spec_strip_dots(t@) == spec_strip_dots(t@.skip(start as int)),
        decreases t@.len() - start,
    {
        proof {
            assert(t@.skip(start as int).drop_first() =~= t@.skip(start + 1));
        }
        start += 1;
    }
    proof {
        if start < t@.len() {
            assert(spec_strip_dots(t@.skip(start as int)) == t@.skip(start as int));
        } else {
            assert(t@.skip(start as int) =~= Seq::<char>::empty());
        }
    }
    let stripped = subrange_chars(&t, start, t.len());
    proof {
        assert(stripped@ =~= t@.skip(start as int));
    }
    upper_chars(&stripped)
}

/// Which kind of statement a normalized operation is.
pub open spec fn spec_classify(op: Seq<char>) -> StatementKind {
    if op == "ORG"@ {
        StatementKind::DirectiveOrg
    } else if op == "DB"@ {
        StatementKind::DirectiveDb
    } else if op == "DW"@ {
        StatementKind::DirectiveDw
    } else {
        StatementKind::Instruction
    }
}

/// Classifies a normalized operation; see `spec_classify`.
pub fn classify_operation(operation: &Vec<char>) -> (r: StatementKind)
    ensures
        r == spec_classify(operation@),
{
    if text_is(operation, "ORG") {
        StatementKind::DirectiveOrg
    } else if text_is(operation, "DB") {
        StatementKind::DirectiveDb
    } else if text_is(operation, "DW") {
        StatementKind::DirectiveDw
    } else {
        StatementKind::Instruction
    }
}

/// The text inside a quoted string token: after trimming, a first and
/// last character that are the same quote, around anything at all.
pub open spec fn spec_string_lit(token: Seq<char>) -> Option<Seq<char>> {
    let v = spec_trim(token);
    if v.len() >= 2 && (v[0] == '\'' || v[0] == '"') && v[0] == v[v.len() - 1] {
        Some(v.subrange(1, v.len() - 1))
    } else {
        None
    }
}

/// Recognizes a quoted string token; see `spec_string_lit`.
pub fn parse_string_literal(token: &Vec<char>) -> (r: Option<Vec<char>>)
    ensures
        match r {
            Some(inner) => spec_string_lit(token@) == Some(inner@),
            None => spec_string_lit(token@) is None,
        },
{
    let v = trim_chars(token);
    if v.len() >= 2 {
        let first = v[0];
        let last = v[v.len() - 1];
        if (first == '\'' || first == '"') && first == last {
            return Some(subrange_chars(&v, 1, v.len() - 1));
        }
    }
    None
}


// ---------------------------------------------------------------------------
// Data directives
// ---------------------------------------------------------------------------
/// How many bytes the `DB` arguments from `i` on produce: a quoted string
/// contributes one byte per character, anything else one byte.
pub open spec fn spec_count_db(args: Seq<Seq<char>>, i: int) -> int
    decreases args.len() - i,
{
    if i < 0 || i >= args.len() {
        0
    } else {
        (match spec_string_lit(args[i]) {
            Some(inner) => inner.len() as int,
            None => 1,
        }) + spec_count_db(args, i + 1)
    }
}

/// A size measure of an argument list: the tokens' lengths plus one per
/// token.  It bounds both the byte count of `DB` and the token count.
pub open spec fn spec_args_size(args: Seq<Seq<char>>, i: int) -> int
    decreases args.len() - i,
{
    if i < 0 || i >= args.len() {
        0
    } else {
        args[i].len() + 1 + spec_args_size(args, i + 1)
    }
}

pub proof fn lemma_args_size_bounds(args: Seq<Seq<char>>, i: int)
    ensures
        spec_args_size(args, i) >= 0,
        i >= 0 ==> args.len() - i <= spec_args_size(args, i),
        0 <= spec_count_db(args, i) <= spec_args_size(args, i),
    decreases args.len() - i,
{
    if i < 0 || i >= args.len() {
    } else {
        lemma_args_size_bounds(args, i + 1);
        match spec_string_lit(args[i]) {
            Some(inner) => {
                crate::assembler::text::lemma_trim_len(args[i]);
            },
            None => {},
        }
    }
}

/// Appending a token grows the measure by its length plus one.
pub proof fn lemma_args_size_push(args: Seq<Seq<char>>, t: Seq<char>, i: int)
    requires
        0 <= i <= args.len(),
    ensures
        spec_args_size(args.push(t), i) == spec_args_size(args, i) + t.len() + 1,
    decreases args.len() - i,
{
    let p = args.push(t);
    if i >= args.len() {
        assert(p[i] == t);
        assert(spec_args_size(p, i + 1) == 0);
    } else {
        assert(p[i] == args[i]);
        lemma_args_size_push(args, t, i + 1);
    }
}

/// Splitting a text yields arguments whose measure the text bounds.
pub proof fn lemma_split_args_size(
    s: Seq<char>,
    i: int,
    q: Option<char>,
    tok: Seq<char>,
    acc: Seq<Seq<char>>,
)
    requires
        0 <= i <= s.len(),
    ensures
        spec_args_size(spec_split_args_from(s, i, q, tok, acc), 0) <= spec_args_size(acc, 0) + (
        s.len() - i) + tok.len() + 1,
    decreases s.len() - i,
{
    crate::assembler::text::lemma_trim_len(tok);
    if i >= s.len() {
        if spec_trim(tok).len() > 0 {
            lemma_args_size_push(acc, spec_trim(tok), 0);
        } else {
            lemma_args_size_bounds(acc, 0);
        }
    } else {
        let c = s[i];
        if c == '\'' || c == '"' {
            let q2 = if q is None {
                Some(c)
            } else if q == Some(c) {
                None
            } else {
                q
            };
            lemma_split_args_size(s, i + 1, q2, tok.push(c), acc);
        } else if c == ',' && q is None {
            if spec_trim(tok).len() > 0 {
                lemma_args_size_push(acc, spec_trim(tok), 0);
                lemma_split_args_size(s, i + 1, q, Seq::empty(), acc.push(spec_trim(tok)));
            } else {
                lemma_split_args_size(s, i + 1, q, Seq::empty(), acc);
            }
        } else {
            lemma_split_args_size(s, i + 1, q, tok.push(c), acc);
        }
    }
}

/// Counts the bytes a `DB` argument list produces; zero bytes fail.
pub fn count_db_bytes(arguments: &Vec<Vec<char>>, line_no: usize) -> (r: Result<
    usize,
    AssemblerError,
>)
    requires
        spec_count_db(arguments.deep_view(), 0) <= 0xFFFF_FFFF,
    ensures
        ({
            let total = spec_count_db(arguments.deep_view(), 0);
            if total == 0 {
                r matches Err(e) && is_asm_err(e, AsmErrorKind::EmptyData, Some(line_no))
            } else {
                r matches Ok(n) && n == total
            }
        }),
{
    let ghost dv = arguments.deep_view();
    proof {
        lemma_deep_view_char_vecs(*arguments);
    }
    let mut total: usize = 0;
    let mut i: usize = 0;
    proof {
        lemma_args_size_bounds(dv, 0);
    }
    while i < arguments.len()
        invariant
            i <= arguments@.len(),
            dv == arguments.deep_view(),
            dv.len() == arguments@.len(),
            forall|j: int| 0 <= j < arguments@.len() ==> #[trigger] dv[j] == arguments@[j]@,
            spec_count_db(dv, 0) <= 0xFFFF_FFFF,
            spec_count_db(dv, 0) == total + spec_count_db(dv, i as int),
            total <= spec_count_db(dv, 0),
        decreases arguments@.len() - i,
    {
        proof {
            lemma_args_size_bounds(dv, i + 1);
            lemma_args_size_bounds(dv, i as int);
        }
        match parse_string_literal(&arguments[i]) {
            Some(text) => {
                total = total + text.len();
            },
            None => {
                total = total + 1;
            },
        }
        i += 1;
    }

    if total == 0 {
        return Err(AssemblerError::new(AsmErrorKind::EmptyData, Some(line_no)));
    }
    Ok(total)
}

/// The bytes the `DB` arguments from `i` on emit: each string character's
/// low 8 bits, or each value checked to fit one byte.
pub open spec fn spec_encode_db(args: Seq<Seq<char>>, i: int, table: Seq<(Seq<char>, int)>) -> Result<
    Seq<u8>,
    AsmErrorKind,
>
    decreases args.len() - i,
{
    if i < 0 || i >= args.len() {
        Ok(Seq::empty())
    } else {
        let first: Result<Seq<u8>, AsmErrorKind> = match spec_string_lit(args[i]) {
            Some(inner) => Ok(Seq::new(inner.len(), |k: int| (inner[k] as int % 256) as u8)),
            None => match crate::assembler::encoding::spec_parse_value(args[i], table) {
                None => Err(AsmErrorKind::InvalidValue),
                Some(v) => if !(0 <= v <= 0xFF) {
                    Err(AsmErrorKind::OutOfRange)
                } else {
                    Ok(seq![v as u8])
                },
            },
        };
        match first {
            Err(k) => Err(k),
            Ok(bytes) => match spec_encode_db(args, i + 1, table) {
                Err(k) => Err(k),
                Ok(rest) => Ok(bytes + rest),
            },
        }
    }
}

/// The bytes a successful `DB` emits are exactly as many as pass 1 counted.
pub proof fn lemma_encode_db_len(args: Seq<Seq<char>>, i: int, table: Seq<(Seq<char>, int)>)
    ensures
        spec_encode_db(args, i, table) matches Ok(bytes) ==> bytes.len() == spec_count_db(
            args,
            i,
        ),
    decreases args.len() - i,
{
    if i < 0 || i >= args.len() {
    } else {
        lemma_encode_db_len(args, i + 1, table);
    }
}

/// Emits the bytes of a `DB` directive; see `spec_encode_db`.
pub fn encode_db_values(
    arguments: &Vec<Vec<char>>,
    labels: &crate::assembler::encoding::LabelTable,
    line_no: usize,
) -> (r: Result<Vec<u8>, AssemblerError>)
    requires
        crate::assembler::encoding::spec_addresses_ok(labels@),
    ensures
        match r {
            Ok(values) => spec_encode_db(arguments.deep_view(), 0, labels@) == Ok::<
                _,
                AsmErrorKind,
            >(values@),
            Err(e) => spec_encode_db(arguments.deep_view(), 0, labels@) matches Err(k)
                && is_asm_err(e, k, Some(line_no)),
        },
{
    let ghost dv = arguments.deep_view();
    proof {
        lemma_deep_view_char_vecs(*arguments);
    }
    let mut values: Vec<u8> = Vec::new();
    let mut i: usize = 0;
    proof {
        assert(values@ =~= Seq::<u8>::empty());
    }
    while i < arguments.len()
        invariant
            i <= arguments@.len(),
            dv == arguments.deep_view(),
            dv.len() == arguments@.len(),
            forall|j: int| 0 <= j < arguments@.len() ==> #[trigger] dv[j] == arguments@[j]@,
            crate::assembler::encoding::spec_addresses_ok(labels@),
            spec_encode_db(dv, 0, labels@) == match spec_encode_db(dv, i as int, labels@) {
                Ok(rest) => Ok::<Seq<u8>, AsmErrorKind>(values@ + rest),
                Err(k) => Err::<Seq<u8>, AsmErrorKind>(k),
            },
        decreases arguments@.len() - i,
    {
        match parse_string_literal(&arguments[i]) {
            Some(text) => {
                let ghost before = values@;
                let mut k: usize = 0;
                while k < text.len()
                    invariant
                        k <= text@.len(),
                        values@.len() == before.len() + k,
                        forall|m: int| 0 <= m < before.len() ==> values@[m] == before[m],
                        forall|m: int|
                            0 <= m < k ==> values@[before.len() + m] == (text@[m] as int % 256) as u8,
                    decreases text@.len() - k,
                {
                    let code = char_code(text[k]);
                    values.push((code % 256) as u8);
                    k += 1;
                }
                proof {
                    let piece = Seq::new(text@.len(), |m: int| (text@[m] as int % 256) as u8);
                    assert(values@ =~= before + piece);
                    assert(spec_string_lit(dv[i as int]) == Some(text@));
                    match spec_encode_db(dv, i + 1, labels@) {
                        Ok(rest) => {
                            assert(before + (piece + rest) =~= (before + piece) + rest);
                        },
                        Err(_) => {},
                    }
                }
            },
            None => {
                let byte = crate::assembler::encoding::parse_value_chars(
                    &arguments[i],
                    labels,
                    line_no,
                )?;
                match crate::assembler::encoding::ensure_range(byte, 0, 0xFF, "byte", line_no) {
                    Ok(()) => {},
                    Err(e) => {
                        return Err(e);
                    },
                }
                let ghost before = values@;
                values.push(byte as u8);
                proof {
                    let piece = seq![byte as u8];
                    assert(values@ =~= before + piece);
                    match spec_encode_db(dv, i + 1, labels@) {
                        Ok(rest) => {
                            assert(before + (piece + rest) =~= (before + piece) + rest);
                        },
                        Err(_) => {},
                    }
                }
            },
        }
        i += 1;
    }
    proof {
        assert(values@ + Seq::<u8>::empty() =~= values@);
    }
    Ok(values)
}


// ---------------------------------------------------------------------------
// Pass 1
// ---------------------------------------------------------------------------
impl DeepView for Statement {
    type V = SpecStatement;

    open spec fn deep_view(&self) -> SpecStatement {
        self.view()
    }
}

/// The views of the elements of a statement vector are its deep view.
pub proof fn lemma_deep_view_stmts(v: Vec<Statement>)
    ensures
        v.deep_view().len() == v@.len(),
        forall|i: int| 0 <= i < v@.len() ==> #[trigger] v.deep_view()[i] == v@[i]@,
{
    assert forall|i: int| 0 <= i < v@.len() implies #[trigger] v.deep_view()[i] == v@[i]@ by {
        assert(v.deep_view()[i] == v@[i].deep_view());
    }
}

/// The index of the first newline at or after `i`, or the text's length.
pub open spec fn spec_find_nl(s: Seq<char>, i: int) -> int
    decreases s.len() - i,
{
    if i < 0 || i >= s.len() {
        s.len() as int
    } else if s[i] == '\n' {
        i
    } else {
        spec_find_nl(s, i + 1)
    }
}

fn find_newline(v: &Vec<char>, from: usize) -> (r: usize)
    requires
        from <= v@.len(),
    ensures
        r == spec_find_nl(v@, from as int),
        from <= r <= v@.len(),
{
    let mut i: usize = from;
    while i < v.len()
        invariant
            from <= i <= v@.len(),
            spec_find_nl(v@, from as int) == spec_find_nl(v@, i as int),
        decreases v@.len() - i,
    {
        if v[i] == '\n' {
            return i;
        }
        i += 1;
    }
    v.len()
}

/// A line with one trailing carriage return removed, as `str::lines`
/// does before a newline.
pub open spec fn spec_strip_cr(t: Seq<char>) -> Seq<char> {
    if t.len() > 0 && t[t.len() - 1] == '\r' {
        t.drop_last()
    } else {
        t
    }
}

/// Stripping a comment never lengthens a line.
pub proof fn lemma_strip_from_len(s: Seq<char>, i: int, q: Option<char>)
    ensures
        spec_strip_from(s, i, q).len() <= s.len(),
    decreases s.len() - i,
{
    if i < 0 || i >= s.len() {
    } else if s[i] == '\'' || s[i] == '"' {
        let q2 = if q is None {
            Some(s[i])
        } else if q == Some(s[i]) {
            None
        } else {
            q
        };
        lemma_strip_from_len(s, i + 1, q2);
    } else if (s[i] == ';' || s[i] == '#') && q is None {
    } else {
        lemma_strip_from_len(s, i + 1, q);
    }
}

/// The remainder after label splitting never outgrows the line.
pub proof fn lemma_split_labels_rem_len(rem: Seq<char>, acc: Seq<Seq<char>>)
    ensures
        spec_split_labels_from(rem, acc) matches Ok(p) ==> p.1.len() <= rem.len(),
    decreases rem.len(),
{
    crate::assembler::text::lemma_trim_len(rem);
    match spec_find_colon(rem, 0) {
        None => {},
        Some(ci) => {
            if !(0 <= ci < rem.len()) {
            } else {
                let before = spec_trim(rem.take(ci));
                if before.len() == 0 || spec_has_ws(before) {
                } else if !spec_is_valid_label(before) {
                } else {
                    lemma_split_labels_rem_len(rem.skip(ci + 1), acc.push(before));
                }
            }
        },
    }
}

/// The state pass 1 accumulates: the statements, the label table, and
/// the program counter.
#[verifier::ext_equal]
pub struct Pass1 {
    pub stmts: Seq<SpecStatement>,
    pub table: Seq<(Seq<char>, int)>,
    pub pc: int,
}

/// Binds the labels from `k` on to the current counter, rejecting one
/// that is already bound.
pub open spec fn spec_process_labels(
    ls: Seq<Seq<char>>,
    k: int,
    table: Seq<(Seq<char>, int)>,
    pc: int,
) -> Result<Seq<(Seq<char>, int)>, AsmErrorKind>
    decreases ls.len() - k,
{
    if k < 0 || k >= ls.len() {
        Ok(table)
    } else if crate::assembler::encoding::spec_lookup(table, ls[k]) is Some {
        Err(AsmErrorKind::DuplicateLabel)
    } else {
        spec_process_labels(ls, k + 1, table.push((ls[k], pc)), pc)
    }
}

/// What one source line contributes in pass 1: labels bind to the current
/// counter; `ORG` moves the counter forward (never below the origin or
/// backwards, and only to a numeric target); `DB`/`DW` advance it by their
/// byte counts; anything else is an instruction and advances it by 2.
/// A counter that would leave the 31-bit address range is rejected:
/// no meaningful program reaches addresses that large.
pub open spec fn spec_pass1_line(line: Seq<char>, line_no: int, acc: Pass1, origin: int) -> Result<
    Pass1,
    (AsmErrorKind, int),
> {
    let content = spec_trim(spec_strip_comments(line));
    if content.len() == 0 {
        Ok(acc)
    } else {
        match spec_split_labels_from(content, Seq::empty()) {
            Err(k) => Err((k, line_no)),
            Ok((lls, remainder)) => match spec_process_labels(lls, 0, acc.table, acc.pc) {
                Err(k) => Err((k, line_no)),
                Ok(table1) => if remainder.len() == 0 {
                    Ok(Pass1 { table: table1, ..acc })
                } else {
                    let parts = spec_split_op_args(remainder);
                    let norm = spec_normalize_operation(parts.0);
                    let args = parts.1;
                    let kind = spec_classify(norm);
                    let stmt = SpecStatement { line_no, kind, operation: norm, arguments: args };
                    let stmts2 = acc.stmts.push(stmt);
                    if kind == StatementKind::DirectiveOrg {
                        if args.len() != 1 {
                            Err((AsmErrorKind::WrongArgCount, line_no))
                        } else {
                            match crate::assembler::encoding::spec_parse_numeric(args[0]) {
                                None => Err((AsmErrorKind::InvalidValue, line_no)),
                                Some(t) => if t < origin || t < acc.pc {
                                    Err((AsmErrorKind::OrgBackwards, line_no))
                                } else {
                                    Ok(Pass1 { stmts: stmts2, table: table1, pc: t })
                                },
                            }
                        }
                    } else if kind == StatementKind::DirectiveDb {
                        if args.len() == 0 {
                            Err((AsmErrorKind::EmptyData, line_no))
                        } else {
                            let total = spec_count_db(args, 0);
                            if total == 0 {
                                Err((AsmErrorKind::EmptyData, line_no))
                            } else if acc.pc + total > 0x7FFF_FFFF {
                                Err((AsmErrorKind::OutOfRange, line_no))
                            } else {
                                Ok(Pass1 { stmts: stmts2, table: table1, pc: acc.pc + total })
                            }
                        }
                    } else if kind == StatementKind::DirectiveDw {
                        if args.len() == 0 {
                            Err((AsmErrorKind::EmptyData, line_no))
                        } else if acc.pc + 2 * args.len() > 0x7FFF_FFFF {
                            Err((AsmErrorKind::OutOfRange, line_no))
                        } else {
                            Ok(
                                Pass1 {
                                    stmts: stmts2,
                                    table: table1,
                                    pc: acc.pc + 2 * args.len(),
                                },
                            )
                        }
                    } else {
                        if acc.pc + 2 > 0x7FFF_FFFF {
                            Err((AsmErrorKind::OutOfRange, line_no))
                        } else {
                            Ok(Pass1 { stmts: stmts2, table: table1, pc: acc.pc + 2 })
                        }
                    }
                },
            },
        }
    }
}

/// Pass 1 over the source from position `i` on, line by line: harvest
/// labels and classify statements while tracking the program counter.
pub open spec fn spec_pass1(
    src: Seq<char>,
    i: int,
    line_no: int,
    acc: Pass1,
    origin: int,
) -> Result<Pass1, (AsmErrorKind, int)>
    decreases src.len() + 1 - i,
{
    if i < 0 || i >= src.len() {
        Ok(acc)
    } else {
        let j = spec_find_nl(src, i);
        if !(i <= j <= src.len()) {
            // `spec_find_nl` never answers outside the text.
            Ok(acc)
        } else {
            let raw = src.subrange(i, j);
            let line = if j < src.len() {
                spec_strip_cr(raw)
            } else {
                raw
            };
            match spec_pass1_line(line, line_no, acc, origin) {
                Err(e) => Err(e),
                Ok(acc2) => spec_pass1(src, j + 1, line_no + 1, acc2, origin),
            }
        }
    }
}

/// What pass 1 makes of a whole source text.
pub open spec fn spec_parse_source(src: Seq<char>, origin: int) -> Result<
    Pass1,
    (AsmErrorKind, int),
> {
    spec_pass1(src, 0, 1, Pass1 { stmts: Seq::empty(), table: Seq::empty(), pc: origin }, origin)
}

/// Each `ORG` statement carries exactly one argument.
pub open spec fn spec_stmts_wf(stmts: Seq<SpecStatement>) -> bool {
    forall|k: int|
        0 <= k < stmts.len() && (#[trigger] stmts[k]).kind == StatementKind::DirectiveOrg
            ==> stmts[k].arguments.len() == 1
}

/// A bound on how far the statements from `k` on can advance the output.
pub open spec fn spec_stmts_size(stmts: Seq<SpecStatement>, k: int) -> int
    decreases stmts.len() - k,
{
    if k < 0 || k >= stmts.len() {
        0
    } else {
        2 * spec_args_size(stmts[k].arguments, 0) + 2 + spec_stmts_size(stmts, k + 1)
    }
}

pub proof fn lemma_stmts_size_nonneg(stmts: Seq<SpecStatement>, k: int)
    ensures
        spec_stmts_size(stmts, k) >= 0,
    decreases stmts.len() - k,
{
    if k < 0 || k >= stmts.len() {
    } else {
        lemma_args_size_bounds(stmts[k].arguments, 0);
        lemma_stmts_size_nonneg(stmts, k + 1);
    }
}

pub proof fn lemma_stmts_size_push(stmts: Seq<SpecStatement>, st: SpecStatement, k: int)
    requires
        0 <= k <= stmts.len(),
    ensures
        spec_stmts_size(stmts.push(st), k) == spec_stmts_size(stmts, k) + 2 * spec_args_size(
            st.arguments,
            0,
        ) + 2,
    decreases stmts.len() - k,
{
    let p = stmts.push(st);
    if k >= stmts.len() {
        assert(p[k] == st);
        assert(spec_stmts_size(p, k + 1) == 0);
    } else {
        assert(p[k] == stmts[k]);
        lemma_stmts_size_push(stmts, st, k + 1);
    }
}

/// Runs pass 1: parses the source into statements and a label table,
/// tracking the program counter from `origin`; see `spec_parse_source`.
/// The bounds on `origin` and on the source length confine every address
/// to the 31-bit range the assembler works in.
#[verifier::rlimit(100)]
pub fn parse_source(source: &str, origin: usize) -> (r: Result<
    (Vec<Statement>, crate::assembler::encoding::LabelTable),
    AssemblerError,
>)
    requires
        origin <= 0x7FFF_FFFF,
        source@.len() <= 0x0400_0000,
    ensures
        match r {
            Ok((stmts, table)) => spec_parse_source(source@, origin as int) matches Ok(p)
                && stmts.deep_view() == p.stmts && table@ == p.table
                && crate::assembler::encoding::spec_addresses_ok(table@) && spec_stmts_wf(
                stmts.deep_view(),
            ) && spec_stmts_size(stmts.deep_view(), 0) <= 0x3000_0000,
            Err(e) => spec_parse_source(source@, origin as int) matches Err((k, ln))
                && is_asm_err(e, k, Some(ln as usize)),
        },
{
    let src = chars_of(source);
    let mut statements: Vec<Statement> = Vec::new();
    let mut labels = crate::assembler::encoding::LabelTable::new();
    let mut program_counter: usize = origin;
    let mut i: usize = 0;
    let mut line_no: usize = 1;
    let ghost init = Pass1 { stmts: Seq::empty(), table: Seq::empty(), pc: origin as int };

    proof {
        lemma_deep_view_stmts(statements);
        assert(statements.deep_view() =~= Seq::<SpecStatement>::empty());
        assert(Pass1 {
            stmts: statements.deep_view(),
            table: labels@,
            pc: program_counter as int,
        } =~= init);
    }

    while i < src.len()
        invariant
            i <= src@.len() + 1,
            src@ == source@,
            src@.len() <= 0x0400_0000,
            origin <= 0x7FFF_FFFF,
            line_no >= 1,
            line_no <= i + 1,
            program_counter <= 0x7FFF_FFFF,
            crate::assembler::encoding::spec_addresses_ok(labels@),
            spec_stmts_wf(statements.deep_view()),
            spec_stmts_size(statements.deep_view(), 0) <= 6 * i + 4,
            spec_parse_source(source@, origin as int) == spec_pass1(
                src@,
                i as int,
                line_no as int,
                Pass1 {
                    stmts: statements.deep_view(),
                    table: labels@,
                    pc: program_counter as int,
                },
                origin as int,
            ),
        decreases src@.len() + 1 - i,
    {
        let ghost acc = Pass1 {
            stmts: statements.deep_view(),
            table: labels@,
            pc: program_counter as int,
        };
        let j = find_newline(&src, i);
        let raw = subrange_chars(&src, i, j);
        proof {
            assert(raw@ =~= src@.subrange(i as int, j as int));
        }
        let line: Vec<char> = if j < src.len() {
            if raw.len() > 0 && raw[raw.len() - 1] == '\r' {
                let stripped = subrange_chars(&raw, 0, raw.len() - 1);
                proof {
                    assert(stripped@ =~= raw@.drop_last());
                }
                stripped
            } else {
                raw
            }
        } else {
            raw
        };
        let ghost lspec = if (j as int) < src@.len() {
            spec_strip_cr(src@.subrange(i as int, j as int))
        } else {
            src@.subrange(i as int, j as int)
        };
        proof {
            assert(line@ == lspec);
        }

        let stripped_line = strip_comments(&line);
        let content = trim_chars(&stripped_line);
        proof {
            lemma_strip_from_len(lspec, 0, None);
            crate::assembler::text::lemma_trim_len(stripped_line@);
            assert(lspec.len() <= j - i);
            assert(content@.len() <= j - i);
        }

        if content.len() != 0 {
            let (line_labels, remainder) = match split_labels(&content, line_no) {
                Ok(p) => p,
                Err(e) => {
                    return Err(e);
                },
            };
            proof {
                lemma_split_labels_rem_len(content@, Seq::empty());
                assert(remainder@.len() <= j - i);
            }

            // bind the line's labels to the current counter
            let ghost table0 = labels@;
            let ghost lls = line_labels.deep_view();
            proof {
                lemma_deep_view_char_vecs(line_labels);
            }
            let mut k: usize = 0;
            while k < line_labels.len()
                invariant
                    k <= line_labels@.len(),
                    lls == line_labels.deep_view(),
                    lls.len() == line_labels@.len(),
                    forall|m: int|
                        0 <= m < line_labels@.len() ==> #[trigger] lls[m] == line_labels@[m]@,
                    program_counter <= 0x7FFF_FFFF,
                    crate::assembler::encoding::spec_addresses_ok(labels@),
                    spec_process_labels(lls, 0, table0, program_counter as int)
                        == spec_process_labels(lls, k as int, labels@, program_counter as int),
                    spec_parse_source(source@, origin as int) == spec_pass1(
                        src@,
                        i as int,
                        line_no as int,
                        acc,
                        origin as int,
                    ),
                    acc == (Pass1 {
                        stmts: statements.deep_view(),
                        table: table0,
                        pc: program_counter as int,
                    }),
                    i < src@.len(),
                    i <= j <= src@.len(),
                    j == spec_find_nl(src@, i as int),
                    lspec == (if (j as int) < src@.len() {
                        spec_strip_cr(src@.subrange(i as int, j as int))
                    } else {
                        src@.subrange(i as int, j as int)
                    }),
                    spec_trim(spec_strip_comments(lspec)) == content@,
                    content@.len() != 0,
                    spec_split_labels_from(content@, Seq::empty()) == Ok::<
                        (Seq<Seq<char>>, Seq<char>),
                        AsmErrorKind,
                    >((lls, remainder@)),
                decreases line_labels@.len() - k,
            {
                if labels.contains(&line_labels[k]) {
                    proof {
                        assert(spec_process_labels(lls, k as int, labels@,
                            program_counter as int) == Err::<Seq<(Seq<char>, int)>, AsmErrorKind>(
                            AsmErrorKind::DuplicateLabel,
                        ));
                        assert(spec_pass1_line(lspec, line_no as int, acc, origin as int)
                            == Err::<Pass1, (AsmErrorKind, int)>((
                            AsmErrorKind::DuplicateLabel,
                            line_no as int,
                        )));
                    }
                    return Err(AssemblerError::new(AsmErrorKind::DuplicateLabel, Some(line_no)));
                }
                let ghost tbefore = labels@;
                let name = subrange_chars(&line_labels[k], 0, line_labels[k].len());
                proof {
                    assert(name@ =~= line_labels@[k as int]@);
                }
                labels.insert(name, program_counter);
                proof {
                    assert forall|m: int|
                        0 <= m < labels@.len() implies 0 <= (#[trigger] labels@[m]).1
                        <= 0x7FFF_FFFF by {
                        if m < tbefore.len() {
                            assert(labels@[m] == tbefore[m]);
                        }
                    }
                }
                k += 1;
            }

            if remainder.len() != 0 {
                let (op_raw, args) = split_operation_and_arguments(&remainder);
                let norm = normalize_operation(&op_raw);
                let kind = classify_operation(&norm);
                let ghost gargs = args.deep_view();
                proof {
                    lemma_deep_view_char_vecs(args);
                    lemma_args_size_bounds(gargs, 0);
                    match spec_find_ws(remainder@, 0) {
                        Some(w) => {
                            lemma_find_ws_range(remainder@, 0);
                            lemma_split_args_size(
                                remainder@.skip(w + 1),
                                0,
                                None,
                                Seq::empty(),
                                Seq::empty(),
                            );
                            assert(remainder@.skip(w + 1).len() == remainder@.len() - w - 1);
                        },
                        None => {
                            assert(gargs =~= Seq::<Seq<char>>::empty());
                        },
                    }
                    assert(spec_args_size(gargs, 0) <= j - i);
                }

                let new_pc: usize;
                match kind {
                    StatementKind::DirectiveOrg => {
                        if args.len() != 1 {
                            return Err(AssemblerError::new(
                                AsmErrorKind::WrongArgCount,
                                Some(line_no),
                            ));
                        }
                        let target = match crate::assembler::encoding::parse_numeric_literal_chars(
                            &args[0],
                            line_no,
                        ) {
                            Ok(t) => t,
                            Err(e) => {
                                return Err(e);
                            },
                        };
                        if target < 0 {
                            return Err(AssemblerError::new(
                                AsmErrorKind::OrgBackwards,
                                Some(line_no),
                            ));
                        }
                        let target_u = target as usize;
                        if target_u < origin || target_u < program_counter {
                            return Err(AssemblerError::new(
                                AsmErrorKind::OrgBackwards,
                                Some(line_no),
                            ));
                        }
                        new_pc = target_u;
                    },
                    StatementKind::DirectiveDb => {
                        if args.len() == 0 {
                            return Err(AssemblerError::new(
                                AsmErrorKind::EmptyData,
                                Some(line_no),
                            ));
                        }
                        let count = match count_db_bytes(&args, line_no) {
                            Ok(c) => c,
                            Err(e) => {
                                return Err(e);
                            },
                        };
                        if program_counter + count > 0x7FFF_FFFF {
                            return Err(AssemblerError::new(
                                AsmErrorKind::OutOfRange,
                                Some(line_no),
                            ));
                        }
                        new_pc = program_counter + count;
                    },
                    StatementKind::DirectiveDw => {
                        if args.len() == 0 {
                            return Err(AssemblerError::new(
                                AsmErrorKind::EmptyData,
                                Some(line_no),
                            ));
                        }
                        if program_counter + 2 * args.len() > 0x7FFF_FFFF {
                            return Err(AssemblerError::new(
                                AsmErrorKind::OutOfRange,
                                Some(line_no),
                            ));
                        }
                        new_pc = program_counter + 2 * args.len();
                    },
                    StatementKind::Instruction => {
                        if program_counter + 2 > 0x7FFF_FFFF {
                            return Err(AssemblerError::new(
                                AsmErrorKind::OutOfRange,
                                Some(line_no),
                            ));
                        }
                        new_pc = program_counter + 2;
                    },
                }

                let ghost dv_stmts = statements.deep_view();
                statements.push(
                    Statement { line_no, kind, operation: norm, arguments: args },
                );
                proof {
                    lemma_deep_view_stmts(statements);
                    assert(statements.deep_view() =~= dv_stmts.push(
                        statements@[statements@.len() - 1]@,
                    ));
                    lemma_stmts_size_push(
                        dv_stmts,
                        statements@[statements@.len() - 1]@,
                        0,
                    );
                }
                program_counter = new_pc;
            }
        }

        proof {
            assert(spec_pass1_line(lspec, line_no as int, acc, origin as int) == Ok::<
                Pass1,
                (AsmErrorKind, int),
            >(
                Pass1 {
                    stmts: statements.deep_view(),
                    table: labels@,
                    pc: program_counter as int,
                },
            ));
        }
        i = j + 1;
        line_no = line_no + 1;
    }

    proof {
        assert(spec_pass1(src@, i as int, line_no as int, Pass1 {
            stmts: statements.deep_view(),
            table: labels@,
            pc: program_counter as int,
        }, origin as int) == Ok::<Pass1, (AsmErrorKind, int)>(Pass1 {
            stmts: statements.deep_view(),
            table: labels@,
            pc: program_counter as int,
        }));
    }
    Ok((statements, labels))
}


// ---------------------------------------------------------------------------
// Pass 2
// ---------------------------------------------------------------------------
/// The bytes the `DW` arguments from `i` on emit: each value checked to
/// fit 16 bits, big-endian.
pub open spec fn spec_encode_dw(args: Seq<Seq<char>>, i: int, table: Seq<(Seq<char>, int)>) -> Result<
    Seq<u8>,
    AsmErrorKind,
>
    decreases args.len() - i,
{
    if i < 0 || i >= args.len() {
        Ok(Seq::empty())
    } else {
        match crate::assembler::encoding::spec_parse_value(args[i], table) {
            None => Err(AsmErrorKind::InvalidValue),
            Some(w) => if !(0 <= w <= 0xFFFF) {
                Err(AsmErrorKind::OutOfRange)
            } else {
                match spec_encode_dw(args, i + 1, table) {
                    Err(k) => Err(k),
                    Ok(rest) => Ok(seq![(w / 256) as u8, (w % 256) as u8] + rest),
                }
            },
        }
    }
}

/// A successful `DW` emits two bytes per argument.
pub proof fn lemma_encode_dw_len(args: Seq<Seq<char>>, i: int, table: Seq<(Seq<char>, int)>)
    requires
        0 <= i <= args.len(),
    ensures
        spec_encode_dw(args, i, table) matches Ok(bytes) ==> bytes.len() == 2 * (args.len() - i),
    decreases args.len() - i,
{
    if i >= args.len() {
    } else {
        lemma_encode_dw_len(args, i + 1, table);
    }
}

/// Pass 2 from statement `k` on: re-evaluate every operand against the
/// full label table and emit bytes, tracking the emission cursor.  `ORG`
/// zero-pads forward; moving backwards fails.  On success the bytes and
/// the final cursor come back.
pub open spec fn spec_pass2(
    stmts: Seq<SpecStatement>,
    k: int,
    table: Seq<(Seq<char>, int)>,
    out: Seq<u8>,
    addr: int,
) -> Result<(Seq<u8>, int), (AsmErrorKind, int)>
    decreases stmts.len() - k,
{
    if k < 0 || k >= stmts.len() {
        Ok((out, addr))
    } else {
        let st = stmts[k];
        if st.kind == StatementKind::DirectiveOrg {
            match crate::assembler::encoding::spec_parse_value(st.arguments[0], table) {
                None => Err((AsmErrorKind::InvalidValue, st.line_no)),
                Some(t) => if t < addr {
                    Err((AsmErrorKind::OrgBackwards, st.line_no))
                } else {
                    spec_pass2(
                        stmts,
                        k + 1,
                        table,
                        out + Seq::new((t - addr) as nat, |m: int| 0u8),
                        t,
                    )
                },
            }
        } else if st.kind == StatementKind::DirectiveDb {
            match spec_encode_db(st.arguments, 0, table) {
                Err(kd) => Err((kd, st.line_no)),
                Ok(bytes) => spec_pass2(stmts, k + 1, table, out + bytes, addr + bytes.len()),
            }
        } else if st.kind == StatementKind::DirectiveDw {
            match spec_encode_dw(st.arguments, 0, table) {
                Err(kd) => Err((kd, st.line_no)),
                Ok(bytes) => spec_pass2(stmts, k + 1, table, out + bytes, addr + bytes.len()),
            }
        } else {
            match crate::assembler::encoding::spec_encode_instruction(
                st.operation,
                st.arguments,
                table,
            ) {
                Err(kd) => Err((kd, st.line_no)),
                Ok(code) => spec_pass2(
                    stmts,
                    k + 1,
                    table,
                    out + seq![(code / 256) as u8, (code % 256) as u8],
                    addr + 2,
                ),
            }
        }
    }
}

/// Emits the two big-endian bytes of each `DW` word; see `spec_encode_dw`.
fn encode_dw_values(
    arguments: &Vec<Vec<char>>,
    labels: &crate::assembler::encoding::LabelTable,
    line_no: usize,
) -> (r: Result<Vec<u8>, AssemblerError>)
    requires
        crate::assembler::encoding::spec_addresses_ok(labels@),
    ensures
        match r {
            Ok(values) => spec_encode_dw(arguments.deep_view(), 0, labels@) == Ok::<
                _,
                AsmErrorKind,
            >(values@) && values@.len() == 2 * arguments@.len(),
            Err(e) => spec_encode_dw(arguments.deep_view(), 0, labels@) matches Err(k)
                && is_asm_err(e, k, Some(line_no)),
        },
{
    let ghost dv = arguments.deep_view();
    proof {
        lemma_deep_view_char_vecs(*arguments);
    }
    let mut values: Vec<u8> = Vec::new();
    let mut i: usize = 0;
    proof {
        assert(values@ =~= Seq::<u8>::empty());
    }
    while i < arguments.len()
        invariant
            i <= arguments@.len(),
            dv == arguments.deep_view(),
            dv.len() == arguments@.len(),
            forall|j: int| 0 <= j < arguments@.len() ==> #[trigger] dv[j] == arguments@[j]@,
            crate::assembler::encoding::spec_addresses_ok(labels@),
            values@.len() == 2 * i,
            spec_encode_dw(dv, 0, labels@) == match spec_encode_dw(dv, i as int, labels@) {
                Ok(rest) => Ok::<Seq<u8>, AsmErrorKind>(values@ + rest),
                Err(k) => Err::<Seq<u8>, AsmErrorKind>(k),
            },
        decreases arguments@.len() - i,
    {
        let word = crate::assembler::encoding::parse_value_chars(&arguments[i], labels, line_no)?;
        match crate::assembler::encoding::ensure_range(word, 0, 0xFFFF, "word", line_no) {
            Ok(()) => {},
            Err(e) => {
                return Err(e);
            },
        }
        let ghost before = values@;
        values.push((word / 256) as u8);
        values.push((word % 256) as u8);
        proof {
            let piece = seq![(word as int / 256) as u8, (word as int % 256) as u8];
            assert(values@ =~= before + piece);
            match spec_encode_dw(dv, i + 1, labels@) {
                Ok(rest) => {
                    assert(before + (piece + rest) =~= (before + piece) + rest);
                },
                Err(_) => {},
            }
        }
        i += 1;
    }
    proof {
        assert(values@ + Seq::<u8>::empty() =~= values@);
    }
    Ok(values)
}

/// Runs pass 2: walks the statements with an output buffer and an
/// emission cursor starting at `origin`; see `spec_pass2`.  The size
/// bound keeps every cursor value within machine range.
#[verifier::rlimit(100)]
pub fn encode_statements(
    statements: &Vec<Statement>,
    labels: &crate::assembler::encoding::LabelTable,
    origin: usize,
) -> (r: Result<Vec<u8>, AssemblerError>)
    requires
        crate::assembler::encoding::spec_addresses_ok(labels@),
        spec_stmts_wf(statements.deep_view()),
        spec_stmts_size(statements.deep_view(), 0) <= 0x3000_0000,
        origin <= 0x7FFF_FFFF,
    ensures
        match r {
            Ok(out) => spec_pass2(statements.deep_view(), 0, labels@, Seq::empty(),
                origin as int) matches Ok(p) && p.0 == out@,
            Err(e) => spec_pass2(statements.deep_view(), 0, labels@, Seq::empty(),
                origin as int) matches Err((k, ln)) && is_asm_err(e, k, Some(ln as usize)),
        },
{
    let ghost dv = statements.deep_view();
    proof {
        lemma_deep_view_stmts(*statements);
        lemma_stmts_size_nonneg(dv, 0);
    }
    let mut output: Vec<u8> = Vec::new();
    let mut current_address: usize = origin;
    let mut k: usize = 0;
    proof {
        assert(output@ =~= Seq::<u8>::empty());
    }

    while k < statements.len()
        invariant
            k <= statements@.len(),
            dv == statements.deep_view(),
            dv.len() == statements@.len(),
            forall|m: int| 0 <= m < statements@.len() ==> #[trigger] dv[m] == statements@[m]@,
            crate::assembler::encoding::spec_addresses_ok(labels@),
            spec_stmts_wf(dv),
            spec_stmts_size(dv, 0) <= 0x3000_0000,
            origin <= 0x7FFF_FFFF,
            0 <= spec_stmts_size(dv, k as int) <= spec_stmts_size(dv, 0),
            current_address as int <= 0x7FFF_FFFF + 2 * (spec_stmts_size(dv, 0)
                - spec_stmts_size(dv, k as int)),
            current_address as int == origin + output@.len(),
            spec_pass2(dv, 0, labels@, Seq::empty(), origin as int) == spec_pass2(
                dv,
                k as int,
                labels@,
                output@,
                current_address as int,
            ),
        decreases statements@.len() - k,
    {
        proof {
            lemma_stmts_size_nonneg(dv, k + 1);
            lemma_stmts_size_nonneg(dv, k as int);
            lemma_args_size_bounds(dv[k as int].arguments, 0);
            assert(spec_stmts_size(dv, k as int) == 2 * spec_args_size(
                dv[k as int].arguments,
                0,
            ) + 2 + spec_stmts_size(dv, k + 1));
        }
        let st = &statements[k];
        let ghost stv = dv[k as int];
        proof {
            lemma_deep_view_char_vecs(st.arguments);
        }
        match st.kind {
            StatementKind::DirectiveOrg => {
                let target = match crate::assembler::encoding::parse_value_chars(
                    &st.arguments[0],
                    labels,
                    st.line_no,
                ) {
                    Ok(t) => t,
                    Err(e) => {
                        return Err(e);
                    },
                };
                if target < 0 || (target as usize) < current_address {
                    return Err(AssemblerError::new(
                        AsmErrorKind::OrgBackwards,
                        Some(st.line_no),
                    ));
                }
                let target_u = target as usize;
                let ghost before = output@;
                let mut pad: usize = current_address;
                while pad < target_u
                    invariant
                        current_address <= pad <= target_u,
                        output@.len() == before.len() + (pad - current_address),
                        forall|m: int| 0 <= m < before.len() ==> output@[m] == before[m],
                        forall|m: int|
                            before.len() <= m < output@.len() ==> output@[m] == 0u8,
                    decreases target_u - pad,
                {
                    output.push(0);
                    pad += 1;
                }
                proof {
                    assert(output@ =~= before + Seq::new(
                        (target as int - current_address as int) as nat,
                        |m: int| 0u8,
                    ));
                }
                current_address = target_u;
            },
            StatementKind::DirectiveDb => {
                let db_values = match encode_db_values(&st.arguments, labels, st.line_no) {
                    Ok(v) => v,
                    Err(e) => {
                        return Err(e);
                    },
                };
                proof {
                    lemma_encode_db_len(stv.arguments, 0, labels@);
                    lemma_args_size_bounds(stv.arguments, 0);
                    assert(db_values@.len() <= spec_args_size(stv.arguments, 0));
                    assert(current_address as int + db_values@.len() <= 0x7FFF_FFFF + 2 * (
                    spec_stmts_size(dv, 0) - spec_stmts_size(dv, k + 1)));
                    assert(current_address as int + db_values@.len() <= 0xDFFF_FFFF);
                }
                let ghost before = output@;
                current_address = current_address + db_values.len();
                let mut t: usize = 0;
                while t < db_values.len()
                    invariant
                        t <= db_values@.len(),
                        output@.len() == before.len() + t,
                        forall|m: int| 0 <= m < before.len() ==> output@[m] == before[m],
                        forall|m: int|
                            0 <= m < t ==> output@[before.len() + m] == db_values@[m],
                    decreases db_values@.len() - t,
                {
                    output.push(db_values[t]);
                    t += 1;
                }
                proof {
                    assert(output@ =~= before + db_values@);
                }
            },
            StatementKind::DirectiveDw => {
                let dw_values = match encode_dw_values(&st.arguments, labels, st.line_no) {
                    Ok(v) => v,
                    Err(e) => {
                        return Err(e);
                    },
                };
                proof {
                    lemma_args_size_bounds(stv.arguments, 0);
                    assert(dw_values@.len() == 2 * stv.arguments.len());
                    assert(stv.arguments.len() <= spec_args_size(stv.arguments, 0));
                    assert(current_address as int + dw_values@.len() <= 0x7FFF_FFFF + 2 * (
                    spec_stmts_size(dv, 0) - spec_stmts_size(dv, k + 1)));
                    assert(current_address as int + dw_values@.len() <= 0xDFFF_FFFF);
                }
                let ghost before = output@;
                current_address = current_address + dw_values.len();
                let mut t: usize = 0;
                while t < dw_values.len()
                    invariant
                        t <= dw_values@.len(),
                        output@.len() == before.len() + t,
                        forall|m: int| 0 <= m < before.len() ==> output@[m] == before[m],
                        forall|m: int|
                            0 <= m < t ==> output@[before.len() + m] == dw_values@[m],
                    decreases dw_values@.len() - t,
                {
                    output.push(dw_values[t]);
                    t += 1;
                }
                proof {
                    assert(output@ =~= before + dw_values@);
                }
            },
            StatementKind::Instruction => {
                let opcode = match crate::assembler::encoding::encode_instruction_chars(
                    &st.operation,
                    &st.arguments,
                    labels,
                    st.line_no,
                ) {
                    Ok(c) => c,
                    Err(e) => {
                        return Err(e);
                    },
                };
                proof {
                    assert(current_address as int + 2 <= 0x7FFF_FFFF + 2 * (spec_stmts_size(
                        dv,
                        0,
                    ) - spec_stmts_size(dv, k + 1)));
                    assert(current_address as int + 2 <= 0xDFFF_FFFF);
                }
                let ghost before = output@;
                output.push((opcode / 256) as u8);
                output.push((opcode % 256) as u8);
                proof {
                    assert(output@ =~= before + seq![
                        (opcode as int / 256) as u8,
                        (opcode as int % 256) as u8,
                    ]);
                }
                current_address = current_address + 2;
            },
        }
        k += 1;
    }

    Ok(output)
}

/// What assembling a whole source text yields: pass 1, then pass 2 over
/// its statements and labels.
pub open spec fn spec_assemble_text(src: Seq<char>, origin: int) -> Result<
    (Seq<u8>, int),
    (AsmErrorKind, int),
> {
    match spec_parse_source(src, origin) {
        Err(e) => Err(e),
        Ok(p) => spec_pass2(p.stmts, 0, p.table, Seq::empty(), origin),
    }
}

/// Assembles CHIP-8 source text into ROM bytes, with the program counter
/// starting at `origin`; see `spec_assemble_text`.  The bounds on
/// `origin` and the source length confine all addresses to 31 bits.
pub fn assemble_text(source: &str, origin: usize) -> (r: Result<Vec<u8>, AssemblerError>)
    requires
        origin <= 0x7FFF_FFFF,
        source@.len() <= 0x0400_0000,
    ensures
        match r {
            Ok(rom) => spec_assemble_text(source@, origin as int) matches Ok(p) && p.0 == rom@,
            Err(e) => spec_assemble_text(source@, origin as int) matches Err((k, ln))
                && is_asm_err(e, k, Some(ln as usize)),
        },
{
    let (statements, labels) = match parse_source(source, origin) {
        Ok(p) => p,
        Err(e) => {
            return Err(e);
        },
    };
    encode_statements(&statements, &labels, origin)
}

/// What the `--origin` option text denotes: hex after `0x`/`0X`, else
/// decimal; only values an `i32` address can hold are accepted.
pub open spec fn spec_parse_origin(t: Seq<char>) -> Option<int> {
    let parsed = if t.len() >= 2 && t[0] == '0' && (t[1] == 'x' || t[1] == 'X') {
        crate::assembler::encoding::spec_parse_int_radix(t.skip(2), 16)
    } else {
        crate::assembler::encoding::spec_parse_int_radix(t, 10)
    };
    match parsed {
        Some(v) => if v >= 0 {
            Some(v)
        } else {
            None
        },
        None => None,
    }
}

/// Parses an `--origin` option value; see `spec_parse_origin`.
pub fn parse_origin(text: &str) -> (r: Result<usize, AssemblerError>)
    ensures
        match spec_parse_origin(text@) {
            Some(v) => r matches Ok(o) && o == v,
            None => r matches Err(e) && is_asm_err(e, AsmErrorKind::InvalidValue, None),
        },
{
    let t = chars_of(text);
    let parsed: Option<i32> = if t.len() >= 2 && t[0] == '0' && (t[1] == 'x' || t[1] == 'X') {
        let rest = subrange_chars(&t, 2, t.len());
        proof {
            assert(rest@ =~= t@.skip(2));
        }
        crate::assembler::encoding::parse_int_radix(&rest, 16)
    } else {
        crate::assembler::encoding::parse_int_radix(&t, 10)
    };
    match parsed {
        Some(v) => if v >= 0 {
            Ok(v as usize)
        } else {
            Err(AssemblerError::new(AsmErrorKind::InvalidValue, None))
        },
        None => Err(AssemblerError::new(AsmErrorKind::InvalidValue, None)),
    }
}

// ---------------------------------------------------------------------------
// Laws
// ---------------------------------------------------------------------------
/// Re-running pass 2 on the same statements, labels and origin yields the
/// same bytes: the output is a function of the parsed program alone.
pub proof fn lemma_pass2_reproducible(
    stmts: Seq<SpecStatement>,
    table: Seq<(Seq<char>, int)>,
    origin: int,
    out1: Seq<u8>,
    out2: Seq<u8>,
)
    requires
        spec_pass2(stmts, 0, table, Seq::empty(), origin) matches Ok(p) && p.0 == out1,
        spec_pass2(stmts, 0, table, Seq::empty(), origin) matches Ok(q) && q.0 == out2,
    ensures
        out1 == out2,
{
}

/// The origin law: pass 2 emits exactly as many bytes as its cursor
/// advances, zero-padding included.
pub proof fn lemma_pass2_length(
    stmts: Seq<SpecStatement>,
    k: int,
    table: Seq<(Seq<char>, int)>,
    out: Seq<u8>,
    addr: int,
)
    requires
        0 <= k <= stmts.len(),
    ensures
        spec_pass2(stmts, k, table, out, addr) matches Ok(p) ==> p.0.len() - out.len() == p.1
            - addr,
    decreases stmts.len() - k,
{
    if k >= stmts.len() {
    } else {
        let st = stmts[k];
        if st.kind == StatementKind::DirectiveOrg {
            match crate::assembler::encoding::spec_parse_value(st.arguments[0], table) {
                None => {},
                Some(t) => {
                    if t < addr {
                    } else {
                        lemma_pass2_length(
                            stmts,
                            k + 1,
                            table,
                            out + Seq::new((t - addr) as nat, |m: int| 0u8),
                            t,
                        );
                    }
                },
            }
        } else if st.kind == StatementKind::DirectiveDb {
            match spec_encode_db(st.arguments, 0, table) {
                Err(_) => {},
                Ok(bytes) => {
                    lemma_pass2_length(stmts, k + 1, table, out + bytes, addr + bytes.len());
                },
            }
        } else if st.kind == StatementKind::DirectiveDw {
            match spec_encode_dw(st.arguments, 0, table) {
                Err(_) => {},
                Ok(bytes) => {
                    lemma_pass2_length(stmts, k + 1, table, out + bytes, addr + bytes.len());
                },
            }
        } else {
            match crate::assembler::encoding::spec_encode_instruction(
                st.operation,
                st.arguments,
                table,
            ) {
                Err(_) => {},
                Ok(code) => {
                    lemma_pass2_length(
                        stmts,
                        k + 1,
                        table,
                        out + seq![(code / 256) as u8, (code % 256) as u8],
                        addr + 2,
                    );
                },
            }
        }
    }
}

/// The origin law at the top level: a program that assembles yields
/// exactly `final cursor - origin` bytes.
pub proof fn lemma_assemble_length(src: Seq<char>, origin: int)
    ensures
        spec_assemble_text(src, origin) matches Ok(p) ==> p.0.len() == p.1 - origin,
{
    match spec_parse_source(src, origin) {
        Err(_) => {},
        Ok(p) => {
            lemma_pass2_length(p.stmts, 0, p.table, Seq::empty(), origin);
        },
    }
}


/// Every name in the table obeys the label grammar.
pub open spec fn spec_all_keys_valid(t: Seq<(Seq<char>, int)>) -> bool {
    forall|i: int| 0 <= i < t.len() ==> spec_is_valid_label((#[trigger] t[i]).0)
}

/// Label splitting yields only names that obey the label grammar.
proof fn lemma_split_labels_all_valid(rem: Seq<char>, acc: Seq<Seq<char>>)
    requires
        forall|i: int| 0 <= i < acc.len() ==> spec_is_valid_label(#[trigger] acc[i]),
    ensures
        spec_split_labels_from(rem, acc) matches Ok(p) ==> forall|i: int|
            0 <= i < p.0.len() ==> spec_is_valid_label(#[trigger] p.0[i]),
    decreases rem.len(),
{
    match spec_find_colon(rem, 0) {
        None => {},
        Some(ci) => {
            if !(0 <= ci < rem.len()) {
            } else {
                let before = spec_trim(rem.take(ci));
                if before.len() == 0 || spec_has_ws(before) {
                } else if !spec_is_valid_label(before) {
                } else {
                    crate::assembler::text::lemma_trim_len(rem.take(ci));
                    lemma_split_labels_all_valid(rem.skip(ci + 1), acc.push(before));
                }
            }
        },
    }
}

/// Binding labels preserves the grammar of every key in the table.
proof fn lemma_process_labels_valid(
    ls: Seq<Seq<char>>,
    k: int,
    table: Seq<(Seq<char>, int)>,
    pc: int,
)
    requires
        spec_all_keys_valid(table),
        forall|i: int| 0 <= i < ls.len() ==> spec_is_valid_label(#[trigger] ls[i]),
    ensures
        spec_process_labels(ls, k, table, pc) matches Ok(t2) ==> spec_all_keys_valid(t2),
    decreases ls.len() - k,
{
    if k < 0 || k >= ls.len() {
    } else if crate::assembler::encoding::spec_lookup(table, ls[k]) is Some {
    } else {
        let t2 = table.push((ls[k], pc));
        assert forall|i: int| 0 <= i < t2.len() implies spec_is_valid_label(
            (#[trigger] t2[i]).0,
        ) by {
            if i < table.len() {
                assert(t2[i] == table[i]);
            }
        }
        lemma_process_labels_valid(ls, k + 1, t2, pc);
    }
}

/// A name the table answers for obeys the label grammar.
proof fn lemma_lookup_key_valid(t: Seq<(Seq<char>, int)>, name: Seq<char>)
    requires
        spec_all_keys_valid(t),
    ensures
        crate::assembler::encoding::spec_lookup(t, name) is Some ==> spec_is_valid_label(name),
    decreases t.len(),
{
    if t.len() == 0 {
    } else if t[0].0 == name {
    } else {
        assert forall|i: int| 0 <= i < t.drop_first().len() implies spec_is_valid_label(
            (#[trigger] t.drop_first()[i]).0,
        ) by {
            assert(t.drop_first()[i] == t[i + 1]);
        }
        lemma_lookup_key_valid(t.drop_first(), name);
    }
}

/// A token that reads as a numeric literal can never be a label: after
/// trimming it starts with a quote, `$`, a sign or a digit, never with a
/// letter or underscore.
proof fn lemma_numeric_not_label(t: Seq<char>)
    ensures
        crate::assembler::encoding::spec_parse_numeric(t) is Some ==> !spec_is_valid_label(
            spec_trim(t),
        ),
{
    if crate::assembler::encoding::spec_parse_numeric(t) is Some {
        let v = spec_trim(t);
        if spec_is_valid_label(v) {
            assert(v.len() > 0);
            if v[0] == '$' {
                assert(false);
            } else {
                // the token is examined unchanged
                if v.len() == 3 && v[0] == '\'' && v[2] == '\'' {
                    assert(false);
                } else if v.len() >= 2 && v[0] == '0' {
                    assert(false);
                } else {
                    // decimal: the first character must be a sign or digit
                    assert(crate::assembler::encoding::spec_parse_int_radix(v, 10) is Some);
                    if v[0] == '+' || v[0] == '-' {
                        assert(false);
                    } else {
                        assert(crate::assembler::encoding::spec_digits_val(v, 10, 0, 0)
                            is Some);
                        assert(crate::assembler::encoding::spec_digit_val(v[0], 10) is Some);
                        assert(false);
                    }
                }
            }
        }
    }
}

/// Against a table of grammatical labels, a numeric token resolves to its
/// literal value: no label can shadow it.
proof fn lemma_parse_value_numeric(t: Seq<char>, table: Seq<(Seq<char>, int)>)
    requires
        spec_all_keys_valid(table),
        crate::assembler::encoding::spec_parse_numeric(t) is Some,
    ensures
        crate::assembler::encoding::spec_parse_value(t, table)
            == crate::assembler::encoding::spec_parse_numeric(t),
{
    lemma_numeric_not_label(t);
    lemma_lookup_key_valid(table, spec_trim(t));
}

/// The program counter after the statements from `k` on, starting at
/// `pc`: `ORG` jumps to its numeric target, `DB`/`DW` advance by their
/// byte counts, an instruction by 2.
pub open spec fn spec_stmts_pc(stmts: Seq<SpecStatement>, k: int, pc: int) -> int
    decreases stmts.len() - k,
{
    if k < 0 || k >= stmts.len() {
        pc
    } else {
        let st = stmts[k];
        if st.kind == StatementKind::DirectiveOrg {
            let t = match crate::assembler::encoding::spec_parse_numeric(st.arguments[0]) {
                Some(t) => t,
                None => pc,
            };
            spec_stmts_pc(stmts, k + 1, t)
        } else if st.kind == StatementKind::DirectiveDb {
            spec_stmts_pc(stmts, k + 1, pc + spec_count_db(st.arguments, 0))
        } else if st.kind == StatementKind::DirectiveDw {
            spec_stmts_pc(stmts, k + 1, pc + 2 * st.arguments.len())
        } else {
            spec_stmts_pc(stmts, k + 1, pc + 2)
        }
    }
}

/// Each `ORG` statement from `from` on carries one argument that reads as
/// a numeric literal.  (Pass 1 rejects any other `ORG`.)
pub open spec fn spec_orgs_numeric(stmts: Seq<SpecStatement>, from: int) -> bool {
    forall|k: int|
        from <= k < stmts.len() && (#[trigger] stmts[k]).kind == StatementKind::DirectiveOrg
            ==> stmts[k].arguments.len() == 1
            && crate::assembler::encoding::spec_parse_numeric(stmts[k].arguments[0]) is Some
}

/// A successful pass 1 leaves exactly the counter its statements describe,
/// extends its statement list only at the end, keeps every table key
/// grammatical, and leaves every `ORG` with one numeric argument.
#[verifier::rlimit(100)]
proof fn lemma_pass1_tracks_pc(src: Seq<char>, i: int, line_no: int, acc: Pass1, origin: int, p: Pass1)
    requires
        spec_pass1(src, i, line_no, acc, origin) == Ok::<Pass1, (AsmErrorKind, int)>(p),
        spec_all_keys_valid(acc.table),
    ensures
        p.stmts.len() >= acc.stmts.len(),
        p.stmts.subrange(0, acc.stmts.len() as int) == acc.stmts,
        p.pc == spec_stmts_pc(p.stmts, acc.stmts.len() as int, acc.pc),
        spec_all_keys_valid(p.table),
        spec_orgs_numeric(p.stmts, acc.stmts.len() as int),
    decreases src.len() + 1 - i,
{
    if i < 0 || i >= src.len() {
        assert(p == acc);
        assert(p.stmts.subrange(0, acc.stmts.len() as int) =~= acc.stmts);
    } else {
        let j = spec_find_nl(src, i);
        if !(i <= j <= src.len()) {
            assert(p == acc);
            assert(p.stmts.subrange(0, acc.stmts.len() as int) =~= acc.stmts);
        } else {
            let raw = src.subrange(i, j);
            let line = if j < src.len() {
                spec_strip_cr(raw)
            } else {
                raw
            };
            match spec_pass1_line(line, line_no, acc, origin) {
                Err(_) => {
                    assert(false);
                },
                Ok(acc2) => {
                    // the line's labels keep the table grammatical
                    let content = spec_trim(spec_strip_comments(line));
                    if content.len() == 0 {
                        lemma_pass1_tracks_pc(src, j + 1, line_no + 1, acc2, origin, p);
                        assert(p.stmts.subrange(0, acc.stmts.len() as int) == acc.stmts);
                    } else {
                        match spec_split_labels_from(content, Seq::empty()) {
                            Err(_) => {
                                assert(false);
                            },
                            Ok(pr) => {
                                let lls = pr.0;
                                let remainder = pr.1;
                                lemma_split_labels_all_valid(content, Seq::empty());
                                match spec_process_labels(lls, 0, acc.table, acc.pc) {
                                    Err(_) => {
                                        assert(false);
                                    },
                                    Ok(table1) => {
                                        lemma_process_labels_valid(lls, 0, acc.table, acc.pc);
                                        assert(spec_all_keys_valid(table1));
                                        lemma_pass1_tracks_pc(
                                            src,
                                            j + 1,
                                            line_no + 1,
                                            acc2,
                                            origin,
                                            p,
                                        );
                                        if remainder.len() == 0 {
                                            assert(acc2.stmts == acc.stmts);
                                            assert(acc2.pc == acc.pc);
                                        } else {
                                            // one statement was appended
                                            let n = acc.stmts.len() as int;
                                            assert(acc2.stmts.len() == n + 1);
                                            assert(acc2.stmts.subrange(0, n) =~= acc.stmts);
                                            assert(p.stmts.subrange(0, n + 1)
                                                == acc2.stmts);
                                            assert(p.stmts.subrange(0, n) =~= p.stmts.subrange(
                                                0,
                                                n + 1,
                                            ).subrange(0, n));
                                            assert(p.stmts[n] == acc2.stmts[n]);
                                            assert(spec_stmts_pc(p.stmts, n, acc.pc)
                                                == spec_stmts_pc(p.stmts, n + 1, acc2.pc));
                                        }
                                    },
                                }
                            },
                        }
                    }
                },
            }
        }
    }
}

/// A successful pass 2 leaves its cursor exactly where the statements'
/// counter march says, provided every `ORG` target is numeric and every
/// label key is grammatical.
proof fn lemma_pass2_tracks_pc(
    stmts: Seq<SpecStatement>,
    k: int,
    table: Seq<(Seq<char>, int)>,
    out: Seq<u8>,
    addr: int,
    bytes: Seq<u8>,
    fin: int,
)
    requires
        0 <= k <= stmts.len(),
        spec_pass2(stmts, k, table, out, addr) == Ok::<(Seq<u8>, int), (AsmErrorKind, int)>(
            (bytes, fin),
        ),
        spec_all_keys_valid(table),
        spec_orgs_numeric(stmts, k),
    ensures
        fin == spec_stmts_pc(stmts, k, addr),
    decreases stmts.len() - k,
{
    if k >= stmts.len() {
    } else {
        let st = stmts[k];
        if st.kind == StatementKind::DirectiveOrg {
            lemma_parse_value_numeric(st.arguments[0], table);
            match crate::assembler::encoding::spec_parse_value(st.arguments[0], table) {
                None => {
                    assert(false);
                },
                Some(t) => {
                    assert(t >= addr);
                    lemma_pass2_tracks_pc(
                        stmts,
                        k + 1,
                        table,
                        out + Seq::new((t - addr) as nat, |m: int| 0u8),
                        t,
                        bytes,
                        fin,
                    );
                },
            }
        } else if st.kind == StatementKind::DirectiveDb {
            match spec_encode_db(st.arguments, 0, table) {
                Err(_) => {
                    assert(false);
                },
                Ok(dbytes) => {
                    lemma_encode_db_len(st.arguments, 0, table);
                    lemma_pass2_tracks_pc(
                        stmts,
                        k + 1,
                        table,
                        out + dbytes,
                        addr + dbytes.len(),
                        bytes,
                        fin,
                    );
                },
            }
        } else if st.kind == StatementKind::DirectiveDw {
            match spec_encode_dw(st.arguments, 0, table) {
                Err(_) => {
                    assert(false);
                },
                Ok(dbytes) => {
                    lemma_encode_dw_len(st.arguments, 0, table);
                    lemma_pass2_tracks_pc(
                        stmts,
                        k + 1,
                        table,
                        out + dbytes,
                        addr + dbytes.len(),
                        bytes,
                        fin,
                    );
                },
            }
        } else {
            match crate::assembler::encoding::spec_encode_instruction(
                st.operation,
                st.arguments,
                table,
            ) {
                Err(_) => {
                    assert(false);
                },
                Ok(code) => {
                    lemma_pass2_tracks_pc(
                        stmts,
                        k + 1,
                        table,
                        out + seq![(code / 256) as u8, (code % 256) as u8],
                        addr + 2,
                        bytes,
                        fin,
                    );
                },
            }
        }
    }
}

/// The two passes agree: when a program assembles, pass 2's final cursor
/// is exactly pass 1's final program counter, and the ROM holds exactly
/// `final program counter - origin` bytes, `ORG` zero-padding included.
pub proof fn lemma_passes_agree(
    src: Seq<char>,
    origin: int,
    p: Pass1,
    bytes: Seq<u8>,
    fin: int,
)
    requires
        spec_parse_source(src, origin) == Ok::<Pass1, (AsmErrorKind, int)>(p),
        spec_pass2(p.stmts, 0, p.table, Seq::empty(), origin) == Ok::<
            (Seq<u8>, int),
            (AsmErrorKind, int),
        >((bytes, fin)),
    ensures
        fin == p.pc,
        bytes.len() == p.pc - origin,
{
    let init = Pass1 { stmts: Seq::empty(), table: Seq::empty(), pc: origin };
    lemma_pass1_tracks_pc(src, 0, 1, init, origin, p);
    lemma_pass2_tracks_pc(p.stmts, 0, p.table, Seq::empty(), origin, bytes, fin);
    lemma_pass2_length(p.stmts, 0, p.table, Seq::empty(), origin);
}

} // verus!
