//! Characters to tokens, with file inclusion served from a table of sources.
use crate::lang::token::{Token, TokenView};
use crate::text::{decimal, push_char, push_decimal, same_text};
use unicode_xid::UnicodeXID;
use vstd::prelude::*;

verus! {

/// Deepest nesting of `#path#` inclusions.
pub const MAX_INCLUDE_RECURSIONS: usize = 256;

/// Number of levels the reader stack may reach.
pub open spec fn stack_levels() -> nat {
    MAX_INCLUDE_RECURSIONS as nat + 1
}

/// Where the input ended too early.
#[derive(Debug, Clone, Copy, PartialEq, Eq, Structural)]
pub enum Location {
    InString,
    InStringEscape,
    InInclude,
}

/// The radix of a numeric string escape.
#[derive(Debug, Clone, Copy, PartialEq, Eq, Structural)]
pub enum EscapeKind {
    Hexadecimal,
    Octal,
}

/// The kind of a numeric literal.
#[derive(Debug, Clone, Copy, PartialEq, Eq, Structural)]
pub enum NumericKind {
    Integer,
    Float,
}

/// What went wrong while reading tokens.
#[derive(Debug, Clone, PartialEq, Eq)]
pub enum ErrorKind {
    UnexpectedEOF(Location),
    /// The digits of a numeric escape, which give no character.
    BadEscapeValue(EscapeKind, String),
    /// The text of a literal that is not a valid number.
    BadNumericLiteral(NumericKind, String),
    UnknownChar(char),
    /// The path of an inclusion that names no known source.
    IncludeError(String),
    /// The depth of inclusion reached when one more was asked for.
    TooManyRecursions(usize),
}

/// Default description of a tokenizer error.
pub open spec fn error_text(k: ErrorKind) -> Seq<char> {
    match k {
        ErrorKind::UnexpectedEOF(loc) => "Unexpected EOF "@ + match loc {
            Location::InString => "in string constant"@,
            Location::InStringEscape => "in string escape"@,
            Location::InInclude => "in include"@,
        },
        ErrorKind::BadEscapeValue(kind, val) => "Bad "@ + match kind {
            EscapeKind::Hexadecimal => "hexadecimal"@,
            EscapeKind::Octal => "octal"@,
        } + " escape "@ + val@,
        ErrorKind::BadNumericLiteral(kind, val) => "Bad "@ + match kind {
            NumericKind::Integer => "integer"@,
            NumericKind::Float => "floating point"@,
        } + " literal "@ + val@,
        ErrorKind::UnknownChar(c) => "Unknown character "@.push(c),
        ErrorKind::IncludeError(path) => "Error including file: "@ + path@,
        ErrorKind::TooManyRecursions(n) => "Include recursed too many times ("@ + decimal(n as nat)
            + ")"@,
    }
}

/// A tokenizer error with its description.
#[derive(Debug, Clone)]
pub struct ErrorType {
    pub kind: ErrorKind,
    pub desc: String,
}

impl ErrorType {
    /// Wraps `kind` with its default description.
    pub fn new(kind: ErrorKind) -> (r: ErrorType)
        ensures
            r.kind == kind,
            r.desc@ == error_text(kind),
    {
        let mut desc = String::new();
        match &kind {
            ErrorKind::UnexpectedEOF(loc) => {
                desc.append("Unexpected EOF ");
                match loc {
                    Location::InString => desc.append("in string constant"),
                    Location::InStringEscape => desc.append("in string escape"),
                    Location::InInclude => desc.append("in include"),
                }
            },
            ErrorKind::BadEscapeValue(kind, val) => {
                desc.append("Bad ");
                match kind {
                    EscapeKind::Hexadecimal => desc.append("hexadecimal"),
                    EscapeKind::Octal => desc.append("octal"),
                }
                desc.append(" escape ");
                desc.append(val.as_str());
            },
            ErrorKind::BadNumericLiteral(kind, val) => {
                desc.append("Bad ");
                match kind {
                    NumericKind::Integer => desc.append("integer"),
                    NumericKind::Float => desc.append("floating point"),
                }
                desc.append(" literal ");
                desc.append(val.as_str());
            },
            ErrorKind::UnknownChar(c) => {
                desc.append("Unknown character ");
                push_char(&mut desc, *c);
            },
            ErrorKind::IncludeError(path) => {
                desc.append("Error including file: ");
                desc.append(path.as_str());
            },
            ErrorKind::TooManyRecursions(n) => {
                desc.append("Include recursed too many times (");
                push_decimal(&mut desc, *n as u64);
                desc.append(")");
            },
        }
        assert(desc@ =~= error_text(kind));
        ErrorType { kind, desc }
    }

    /// Wraps `kind` with a description of the caller's choosing.
    pub fn with_description(kind: ErrorKind, description: String) -> (r: ErrorType)
        ensures
            r.kind == kind,
            r.desc@ == description@,
    {
        ErrorType { kind, desc: description }
    }

    /// The description.
    pub fn description(&self) -> (r: &str)
        ensures
            r@ == self.desc@,
    {
        self.desc.as_str()
    }
}

/// Unicode White_Space, the set `char::is_whitespace` tests.
pub open spec fn is_space(c: char) -> bool {
    let v = c as u32;
    (9 <= v <= 13) || v == 32 || v == 0x85 || v == 0xa0 || v == 0x1680 || (0x2000 <= v <= 0x200a)
        || v == 0x2028 || v == 0x2029 || v == 0x202f || v == 0x205f || v == 0x3000
}

/// Whether `c` may start an identifier (Unicode XID_Start).
pub uninterp spec fn xid_start(c: char) -> bool;

/// Whether `c` may continue an identifier (Unicode XID_Continue).
pub uninterp spec fn xid_continue(c: char) -> bool;

/// Relies on unicode-xid's `UnicodeXID::is_xid_start`: whether `c` has the
/// XID_Start property, which depends on `c` alone; among ASCII characters
/// exactly the letters have it.
#[verifier::external_body]
fn is_ident_start(c: char) -> (r: bool)
    ensures
        r == xid_start(c),
        ('a' <= c <= 'z' || 'A' <= c <= 'Z') ==> r,
        (c as u32) < 0x80 && !('a' <= c <= 'z' || 'A' <= c <= 'Z') ==> !r,
{
    UnicodeXID::is_xid_start(c)
}

/// Relies on unicode-xid's `UnicodeXID::is_xid_continue`: whether `c` has
/// the XID_Continue property, which depends on `c` alone; among ASCII
/// characters exactly the letters, digits and `_` have it.
#[verifier::external_body]
fn is_ident_continue(c: char) -> (r: bool)
    ensures
        r == xid_continue(c),
        ('a' <= c <= 'z' || 'A' <= c <= 'Z' || '0' <= c <= '9' || c == '_') ==> r,
        (c as u32) < 0x80 && !('a' <= c <= 'z' || 'A' <= c <= 'Z' || '0' <= c <= '9' || c == '_')
            ==> !r,
{
    UnicodeXID::is_xid_continue(c)
}

/// Value of `c` as a digit in `radix` (8, 10 or 16), if it is one.
pub open spec fn radix_digit(c: char, radix: nat) -> Option<nat> {
    let v = c as u32 as nat;
    if 48 <= v <= 57 && v - 48 < radix {
        Some((v - 48) as nat)
    } else if radix == 16 && 97 <= v <= 102 {
        Some((v - 87) as nat)
    } else if radix == 16 && 65 <= v <= 70 {
        Some((v - 55) as nat)
    } else {
        None
    }
}

/// Value of a string of digits in `radix`.
pub open spec fn radix_value(s: Seq<char>, radix: nat) -> nat
    decreases s.len(),
{
    if s.len() == 0 {
        0
    } else {
        radix_value(s.drop_last(), radix) * radix + match radix_digit(s.last(), radix) {
            Some(d) => d,
            None => 0,
        }
    }
}

/// Whether every character of `s` is a digit in `radix`.
pub open spec fn all_digits(s: Seq<char>, radix: nat) -> bool {
    forall|i: int| 0 <= i < s.len() ==> (#[trigger] radix_digit(s[i], radix)) is Some
}

/// The number written by `s` in `radix`, if `s` is a non-empty run of digits
/// whose value is at most `max`.
pub open spec fn radix_number(s: Seq<char>, radix: nat, max: nat) -> Option<nat> {
    if s.len() > 0 && all_digits(s, radix) && radix_value(s, radix) <= max {
        Some(radix_value(s, radix))
    } else {
        None
    }
}

/// Length of the longest prefix of `s` made of digits in `radix`.
pub open spec fn digit_run(s: Seq<char>, radix: nat) -> nat
    decreases s.len(),
{
    if s.len() > 0 && radix_digit(s[0], radix) is Some {
        1 + digit_run(s.drop_first(), radix)
    } else {
        0
    }
}

/// Length of the longest prefix of `s` made of identifier characters.
pub open spec fn ident_run(s: Seq<char>) -> nat
    decreases s.len(),
{
    if s.len() > 0 && xid_continue(s[0]) {
        1 + ident_run(s.drop_first())
    } else {
        0
    }
}

/// Length of the longest prefix of `s` made of whitespace.
pub open spec fn space_run(s: Seq<char>) -> nat
    decreases s.len(),
{
    if s.len() > 0 && is_space(s[0]) {
        1 + space_run(s.drop_first())
    } else {
        0
    }
}

/// Characters that a numeric literal keeps taking: digits of its radix,
/// radix points, and exponent markers once it is fractional.  Gives how many
/// characters are taken and whether the literal ends up fractional.
pub open spec fn number_run(s: Seq<char>, radix: nat, fractional: bool) -> (nat, bool)
    decreases s.len(),
{
    if s.len() == 0 {
        (0, fractional)
    } else if radix_digit(s[0], radix) is Some {
        let (n, f) = number_run(s.drop_first(), radix, fractional);
        (n + 1, f)
    } else if s[0] == '.' {
        let (n, f) = number_run(s.drop_first(), radix, true);
        (n + 1, f)
    } else if fractional && (s[0] == 'e' || s[0] == 'E') {
        let (n, f) = number_run(s.drop_first(), radix, fractional);
        (n + 1, f)
    } else {
        (0, fractional)
    }
}

/// Index of the first `c` in `s`, if any.
pub open spec fn find_char(s: Seq<char>, c: char) -> Option<nat>
    decreases s.len(),
{
    if s.len() == 0 {
        None
    } else if s[0] == c {
        Some(0)
    } else {
        match find_char(s.drop_first(), c) {
            Some(i) => Some(i + 1),
            None => None,
        }
    }
}

/// Number of characters up to and including the first `*/` in `s`, if any.
pub open spec fn comment_close(s: Seq<char>) -> Option<nat>
    decreases s.len(),
{
    if s.len() < 2 {
        None
    } else if s[0] == '*' && s[1] == '/' {
        Some(2)
    } else {
        match comment_close(s.drop_first()) {
            Some(i) => Some(i + 1),
            None => None,
        }
    }
}

/// Whether `c` is an exponent marker.
pub open spec fn is_exp_char(c: char) -> bool {
    c == 'e' || c == 'E'
}

/// Whether `s` is a valid floating-point literal: decimal digits with one
/// radix point, optionally followed by `e` or `E` and at least one digit.
pub open spec fn float_text_ok(s: Seq<char>) -> bool {
    exists|e: int|
        #![trigger s.subrange(0, e)]
        0 <= e <= s.len() && (forall|i: int| 0 <= i < e ==> !is_exp_char(s[i])) && (e == s.len()
            || is_exp_char(s[e])) && mantissa_ok(s.subrange(0, e)) && exponent_ok(
            s.subrange(e, s.len() as int),
        )
}

/// Decimal digits and exactly one radix point, at least two characters.
pub open spec fn mantissa_ok(m: Seq<char>) -> bool {
    &&& m.len() >= 2
    &&& forall|i: int| 0 <= i < m.len() ==> m[i] == '.' || radix_digit(m[i], 10) is Some
    &&& exists|i: int| 0 <= i < m.len() && m[i] == '.'
    &&& forall|i: int, j: int| 0 <= i < j < m.len() && m[i] == '.' ==> m[j] != '.'
}

/// Nothing, or an exponent marker followed by at least one decimal digit.
pub open spec fn exponent_ok(e: Seq<char>) -> bool {
    e.len() == 0 || (is_exp_char(e[0]) && e.len() >= 2 && all_digits(e.drop_first(), 10))
}

/// The character a single-character escape stands for.
pub open spec fn escaped(e: char) -> char {
    if e == 'n' {
        '\n'
    } else if e == 't' {
        '\t'
    } else if e == 'r' {
        '\r'
    } else {
        e
    }
}

/// The character with scalar value `v`, if there is one.
pub open spec fn scalar_char(v: nat) -> Option<char> {
    if v <= 0x10ffff && !(0xd800 <= v <= 0xdfff) {
        Some(v as char)
    } else {
        None
    }
}

/// Why a lexing step failed.
pub enum LexFail {
    Eof(Location),
    Escape(EscapeKind, Seq<char>),
    Number(NumericKind, Seq<char>),
}

/// The error kind that reports a lexing failure.
pub open spec fn reports(k: ErrorKind, f: LexFail) -> bool {
    match f {
        LexFail::Eof(loc) => k == ErrorKind::UnexpectedEOF(loc),
        LexFail::Escape(kind, digits) => match k {
            ErrorKind::BadEscapeValue(k2, s) => k2 == kind && s@ == digits,
            _ => false,
        },
        LexFail::Number(kind, text) => match k {
            ErrorKind::BadNumericLiteral(k2, s) => k2 == kind && s@ == text,
            _ => false,
        },
    }
}

/// Result of scanning the body of a string literal: its characters and how
/// many input characters it took, closing delimiter included.
pub enum StrScan {
    Done(Seq<char>, nat),
    Fail(LexFail),
}

pub open spec fn str_prepend(pre: Seq<char>, r: StrScan, k: nat) -> StrScan {
    match r {
        StrScan::Done(s, n) => StrScan::Done(pre + s, n + k),
        StrScan::Fail(f) => StrScan::Fail(f),
    }
}

/// Scans a string literal body that ends with `delim`.
pub open spec fn scan_string(t: Seq<char>, delim: char) -> StrScan
    decreases t.len(),
{
    if t.len() == 0 {
        StrScan::Fail(LexFail::Eof(Location::InString))
    } else if t[0] == '\\' {
        if t.len() == 1 {
            StrScan::Fail(LexFail::Eof(Location::InStringEscape))
        } else if t[1] == 'x' || t[1] == 'o' {
            let radix: nat = if t[1] == 'x' {
                16
            } else {
                8
            };
            let kind = if t[1] == 'x' {
                EscapeKind::Hexadecimal
            } else {
                EscapeKind::Octal
            };
            let u = t.skip(2);
            let n = digit_run(u, radix);
            if n >= u.len() {
                StrScan::Fail(LexFail::Eof(Location::InStringEscape))
            } else {
                let digits = u.take(n as int);
                match radix_number(digits, radix, u32::MAX as nat) {
                    None => StrScan::Fail(LexFail::Escape(kind, digits)),
                    Some(v) => match scalar_char(v) {
                        None => StrScan::Fail(LexFail::Escape(kind, digits)),
                        Some(ch) => str_prepend(seq![ch], scan_string(u.skip(n as int), delim), 2 + n),
                    },
                }
            }
        } else {
            str_prepend(seq![escaped(t[1])], scan_string(t.skip(2), delim), 2)
        }
    } else if t[0] == delim {
        StrScan::Done(Seq::empty(), 1)
    } else {
        str_prepend(seq![t[0]], scan_string(t.skip(1), delim), 1)
    }
}

/// One step of lexing.
pub enum LexStep {
    /// A token, and how many characters it took.
    Emit(TokenView, nat),
    /// A comment, skipped, and how many characters it took.
    Skip(nat),
    /// An inclusion of the source at a path, and how many characters the
    /// directive took.
    Include(Seq<char>, nat),
    Fail(LexFail),
}

/// Lexing of a numeric literal whose text so far is `pre`, read on from `u`
/// in `radix`; `k` characters were taken before `u`.
pub open spec fn lex_number_body(pre: Seq<char>, radix: nat, fractional: bool, u: Seq<char>, k: nat) -> LexStep {
    let (n, f) = number_run(u, radix, fractional);
    let text = pre + u.take(n as int);
    if f {
        if float_text_ok(text) {
            LexStep::Emit(TokenView::Float(text), k + n)
        } else {
            LexStep::Fail(LexFail::Number(NumericKind::Float, text))
        }
    } else {
        match radix_number(text, radix, i64::MAX as nat) {
            Some(v) => LexStep::Emit(TokenView::Integer(v as i64), k + n),
            None => LexStep::Fail(LexFail::Number(NumericKind::Integer, text)),
        }
    }
}

/// Lexing of a numeric literal that starts with the digit `c`, followed by `t`.
pub open spec fn lex_number(c: char, t: Seq<char>) -> LexStep {
    if c == '0' {
        if t.len() == 0 {
            LexStep::Emit(TokenView::Integer(0), 1)
        } else if t[0] == 'x' {
            lex_number_body(Seq::empty(), 16, false, t.drop_first(), 2)
        } else if t[0] == 'o' {
            lex_number_body(Seq::empty(), 8, false, t.drop_first(), 2)
        } else if t[0] == '.' {
            lex_number_body(seq!['0', '.'], 10, true, t.drop_first(), 2)
        } else if radix_digit(t[0], 10) is Some {
            lex_number_body(seq!['0', t[0]], 10, false, t.drop_first(), 2)
        } else {
            LexStep::Emit(TokenView::Integer(0), 1)
        }
    } else {
        lex_number_body(seq![c], 10, false, t, 1)
    }
}

/// Lexing of what starts with the non-blank character `c`, followed by `t`.
pub open spec fn lex_from(c: char, t: Seq<char>) -> LexStep {
    if c == '/' {
        if t.len() > 0 && t[0] == '*' {
            match comment_close(t.drop_first()) {
                Some(m) => LexStep::Skip(2 + m),
                None => LexStep::Emit(TokenView::EOF, 1 + t.len()),
            }
        } else {
            LexStep::Emit(TokenView::Oper('/'), 1)
        }
    } else if c == '#' {
        match find_char(t, '#') {
            Some(j) => LexStep::Include(t.take(j as int), j + 2),
            None => LexStep::Fail(LexFail::Eof(Location::InInclude)),
        }
    } else if c == '\'' || c == '"' {
        match scan_string(t, c) {
            StrScan::Done(s, n) => LexStep::Emit(TokenView::String(s), n + 1),
            StrScan::Fail(f) => LexStep::Fail(f),
        }
    } else if radix_digit(c, 10) is Some {
        lex_number(c, t)
    } else if xid_start(c) {
        let n = ident_run(t);
        LexStep::Emit(TokenView::Ident(seq![c] + t.take(n as int)), n + 1)
    } else {
        LexStep::Emit(TokenView::Oper(c), 1)
    }
}

/// The same step, counting `w` more characters taken before it.
pub open spec fn shift_step(step: LexStep, w: nat) -> LexStep {
    match step {
        LexStep::Emit(t, n) => LexStep::Emit(t, n + w),
        LexStep::Skip(n) => LexStep::Skip(n + w),
        LexStep::Include(p, n) => LexStep::Include(p, n + w),
        LexStep::Fail(f) => LexStep::Fail(f),
    }
}

/// One step of lexing the characters `s`: blanks are skipped first.
pub open spec fn lex_step(s: Seq<char>) -> LexStep {
    let w = space_run(s);
    if w == s.len() {
        LexStep::Emit(TokenView::EOF, s.len())
    } else {
        shift_step(lex_from(s[w as int], s.skip(w as int + 1)), w)
    }
}

/// The characters that make up the lexical syntax.
pub struct Lexemes {
    radix_point: char,
    exponent_chars: String,
    string_delim: String,
    esc_intro: char,
    esc_hex: char,
    esc_oct: char,
    com_outer: char,
    com_inner: char,
    include_delim: char,
    escapes: Vec<(char, char)>,
}

impl Lexemes {
    /// Whether these are the standard lexemes.
    pub closed spec fn is_standard(&self) -> bool {
        &&& self.radix_point == '.'
        &&& self.exponent_chars@ == seq!['e', 'E']
        &&& self.string_delim@ == seq!['\'', '"']
        &&& self.esc_intro == '\\'
        &&& self.esc_hex == 'x'
        &&& self.esc_oct == 'o'
        &&& self.com_outer == '/'
        &&& self.com_inner == '*'
        &&& self.include_delim == '#'
        &&& self.escapes@ == standard_escapes()
    }
}

/// The single-character escapes: `\n \t \r \" \'`.
pub open spec fn standard_escapes() -> Seq<(char, char)> {
    seq![('n', '\n'), ('t', '\t'), ('r', '\r'), ('"', '"'), ('\'', '\'')]
}

impl Default for Lexemes {
    fn default() -> (r: Lexemes)
        ensures
            r.is_standard(),
    {
        let mut exponent_chars = String::new();
        push_char(&mut exponent_chars, 'e');
        push_char(&mut exponent_chars, 'E');
        let mut string_delim = String::new();
        push_char(&mut string_delim, '\'');
        push_char(&mut string_delim, '"');
        let mut escapes: Vec<(char, char)> = Vec::new();
        escapes.push(('n', '\n'));
        escapes.push(('t', '\t'));
        escapes.push(('r', '\r'));
        escapes.push(('"', '"'));
        escapes.push(('\'', '\''));
        let r = Lexemes {
            radix_point: '.',
            exponent_chars,
            string_delim,
            esc_intro: '\\',
            esc_hex: 'x',
            esc_oct: 'o',
            com_outer: '/',
            com_inner: '*',
            include_delim: '#',
            escapes,
        };
        assert(r.exponent_chars@ =~= seq!['e', 'E']);
        assert(r.string_delim@ =~= seq!['\'', '"']);
        assert(r.escapes@ =~= standard_escapes());
        r
    }
}

/// Whether `c` occurs in `s`.
pub fn char_in(s: &str, c: char) -> (r: bool)
    ensures
        r == s@.contains(c),
{
    let n = s.unicode_len();
    let mut i: usize = 0;
    while i < n
        invariant
            n == s@.len(),
            i <= n,
            forall|j: int| 0 <= j < i ==> s@[j] != c,
        decreases n - i,
    {
        if s.get_char(i) == c {
            return true;
        }
        i += 1;
    }
    false
}

/// Relies on `str::chars`, collected: the characters of `s` in order.
#[verifier::external_body]
fn chars_of(s: &str) -> (r: Vec<char>)
    ensures
        r@ == s@,
{
    s.chars().collect()
}

/// A source of characters that remembers how far it has been read.
pub struct ResumableChars {
    chars: Vec<char>,
    pos: usize,
}

impl ResumableChars {
    /// The characters not read yet.
    pub closed spec fn rest(&self) -> Seq<char> {
        self.chars@.subrange(self.pos as int, self.chars@.len() as int)
    }

    /// Number of characters the reader started with.
    pub closed spec fn size(&self) -> nat {
        self.chars@.len()
    }

    pub closed spec fn wf(&self) -> bool {
        self.pos <= self.chars@.len()
    }

    /// A reader positioned at the start of `s`.
    pub fn new(s: String) -> (r: ResumableChars)
        ensures
            r.wf(),
            r.rest() == s@,
            r.size() == s@.len(),
    {
        let chars = chars_of(s.as_str());
        let r = ResumableChars { chars, pos: 0 };
        assert(r.rest() =~= s@);
        r
    }

    /// Reads the next character, if any is left.
    pub fn next(&mut self) -> (r: Option<char>)
        requires
            old(self).wf(),
        ensures
            final(self).wf(),
            final(self).size() == old(self).size(),
            match r {
                None => old(self).rest().len() == 0 && *final(self) == *old(self),
                Some(c) => old(self).rest() == seq![c] + final(self).rest(),
            },
    {
        if self.pos >= self.chars.len() {
            None
        } else {
            let c = self.chars[self.pos];
            let ghost before = self.rest();
            self.pos = self.pos + 1;
            assert(before =~= seq![c] + self.rest());
            Some(c)
        }
    }
}

/// Base-`b` value of the digits `s`, most significant first.
pub open spec fn digits_value(s: Seq<nat>, b: nat) -> nat
    decreases s.len(),
{
    if s.len() == 0 {
        0
    } else {
        digits_value(s.drop_last(), b) * b + s.last()
    }
}

/// Lowering one digit lowers the value, whatever the later digits become,
/// as long as they stay below the base.
proof fn lemma_digits_lex(x: Seq<nat>, y: Seq<nat>, i: int, b: nat)
    requires
        x.len() == y.len(),
        0 <= i < x.len(),
        forall|j: int| 0 <= j < i ==> x[j] == y[j],
        x[i] < y[i],
        forall|j: int| i < j < x.len() ==> x[j] < b,
    ensures
        digits_value(x, b) < digits_value(y, b),
    decreases x.len(),
{
    let n = x.len() - 1;
    if i == n {
        assert(x.drop_last() =~= y.drop_last());
    } else {
        lemma_digits_lex(x.drop_last(), y.drop_last(), i, b);
        let vx = digits_value(x.drop_last(), b);
        let vy = digits_value(y.drop_last(), b);
        assert(x.last() < b);
        assert(vx * b + x.last() < vy * b) by (nonlinear_arith)
            requires
                vx < vy,
                x.last() < b,
        ;
    }
}

/// Characters still to come from a stack of readers, innermost first.
pub open spec fn stack_rest(s: Seq<ResumableChars>) -> Seq<char>
    decreases s.len(),
{
    if s.len() == 0 {
        Seq::empty()
    } else {
        s.last().rest() + stack_rest(s.drop_last())
    }
}

/// The pushed-back character, as a sequence.
pub open spec fn pushed(p: Option<char>) -> Seq<char> {
    match p {
        Some(c) => seq![c],
        None => Seq::empty(),
    }
}

/// The optional character, as a sequence.
pub open spec fn seq_opt(c: Option<char>) -> Seq<char> {
    match c {
        Some(x) => seq![x],
        None => Seq::empty(),
    }
}

/// Tests [`is_space`].
fn is_space_char(c: char) -> (r: bool)
    ensures
        r == is_space(c),
{
    let v = c as u32;
    (9 <= v && v <= 13) || v == 32 || v == 0x85 || v == 0xa0 || v == 0x1680 || (0x2000 <= v && v
        <= 0x200a) || v == 0x2028 || v == 0x2029 || v == 0x202f || v == 0x205f || v == 0x3000
}

proof fn lemma_find_none(s: Seq<char>, k: nat, c: char)
    requires
        k == s.len(),
        forall|j: int| 0 <= j < k ==> s[j] != c,
    ensures
        find_char(s, c) is None,
    decreases s.len(),
{
    if s.len() > 0 {
        lemma_find_none(s.drop_first(), (k - 1) as nat, c);
    }
}

proof fn lemma_find_at(s: Seq<char>, k: nat, c: char)
    requires
        k < s.len(),
        s[k as int] == c,
        forall|j: int| 0 <= j < k ==> s[j] != c,
    ensures
        find_char(s, c) == Some(k),
    decreases k,
{
    if k > 0 {
        lemma_find_at(s.drop_first(), (k - 1) as nat, c);
    }
}

/// Reading `ch` at offset `k` of `s0`.
proof fn lemma_read_at(s0: Seq<char>, k: int, before: Seq<char>, ch: char, after: Seq<char>)
    requires
        0 <= k <= s0.len(),
        s0.skip(k) == before,
        before == seq![ch] + after,
    ensures
        k < s0.len(),
        s0[k] == ch,
        s0.skip(k + 1) == after,
        s0.take(k + 1) == s0.take(k).push(ch),
        before.drop_first() == after,
{
    assert(before.len() == after.len() + 1);
    assert(before[0] == ch);
    assert(s0.skip(k)[0] == s0[k]);
    assert forall|i: int| 0 <= i < after.len() implies s0.skip(k + 1)[i] == after[i] by {
        assert(after[i] == before[i + 1]);
        assert(before[i + 1] == s0.skip(k)[i + 1]);
    }
    assert(s0.skip(k + 1) =~= after);
    assert(s0.take(k + 1) =~= s0.take(k).push(ch));
    assert(before.drop_first() =~= after);
}

/// Tests [`radix_digit`] for being a digit, and gives its value.
fn digit_value(c: char, radix: u32) -> (r: Option<u32>)
    requires
        radix == 8 || radix == 10 || radix == 16,
    ensures
        match radix_digit(c, radix as nat) {
            Some(d) => r == Some(d as u32),
            None => r is None,
        },
{
    let v = c as u32;
    if 48 <= v && v <= 57 && v < radix + 48 {
        Some(v - 48)
    } else if radix == 16 && 97 <= v && v <= 102 {
        Some(v - 87)
    } else if radix == 16 && 65 <= v && v <= 70 {
        Some(v - 55)
    } else {
        None
    }
}

proof fn lemma_radix_value_grows(s: Seq<char>, j: int, radix: nat)
    requires
        0 <= j <= s.len(),
        radix >= 1,
    ensures
        radix_value(s.take(j), radix) <= radix_value(s, radix),
    decreases s.len(),
{
    if j < s.len() {
        lemma_radix_value_grows(s.drop_last(), j, radix);
        assert(s.drop_last().take(j) =~= s.take(j));
        let v = radix_value(s.drop_last(), radix);
        assert(v <= v * radix) by (nonlinear_arith)
            requires
                radix >= 1,
        ;
    } else {
        assert(s.take(j) =~= s);
    }
}

/// Computes [`radix_number`].
fn radix_number_of(s: &Vec<char>, radix: u32, max: u64) -> (r: Option<u64>)
    requires
        radix == 8 || radix == 10 || radix == 16,
    ensures
        match radix_number(s@, radix as nat, max as nat) {
            Some(v) => r == Some(v as u64),
            None => r is None,
        },
{
    if s.len() == 0 {
        return None;
    }
    let mut v: u64 = 0;
    let mut i: usize = 0;
    while i < s.len()
        invariant
            radix == 8 || radix == 10 || radix == 16,
            i <= s@.len(),
            s@.len() > 0,
            all_digits(s@.take(i as int), radix as nat),
            v as nat == radix_value(s@.take(i as int), radix as nat),
            v <= max,
        decreases s@.len() - i,
    {
        assert(s@.take(i as int + 1).drop_last() =~= s@.take(i as int));
        match digit_value(s[i], radix) {
            None => {
                assert(!all_digits(s@, radix as nat)) by {
                    assert(radix_digit(s@[i as int], radix as nat) is None);
                }
                return None;
            },
            Some(d) => {
                assert(d < 16);
                assert((v as u128) * (radix as u128) <= 0xffff_ffff_ffff_ffffu128 * 16) by (nonlinear_arith)
                    requires
                        v <= 0xffff_ffff_ffff_ffffu64,
                        radix <= 16,
                ;
                let w: u128 = v as u128 * radix as u128 + d as u128;
                assert(s@.take(i as int + 1).last() == s@[i as int]);
                if w > max as u128 {
                    proof {
                        lemma_radix_value_grows(s@, i as int + 1, radix as nat);
                    }
                    return None;
                }
                v = w as u64;
                proof {
                    assert forall|j: int| 0 <= j < i + 1 implies (#[trigger] radix_digit(
                        s@.take(i as int + 1)[j],
                        radix as nat,
                    )) is Some by {
                        if j < i {
                            assert(s@.take(i as int + 1)[j] == s@.take(i as int)[j]);
                        }
                    }
                }
                i += 1;
            },
        }
    }
    assert(s@.take(s@.len() as int) =~= s@);
    Some(v)
}

proof fn lemma_all_digits_push(a: Seq<char>, c: char, radix: nat)
    ensures
        all_digits(a.push(c), radix) == (all_digits(a, radix) && radix_digit(c, radix) is Some),
{
    let b = a.push(c);
    assert(b[a.len() as int] == c);
    assert forall|l: int| 0 <= l < a.len() implies b[l] == a[l] by {}
    if all_digits(a, radix) && radix_digit(c, radix) is Some {
        assert forall|l: int| 0 <= l < b.len() implies (#[trigger] radix_digit(b[l], radix)) is Some by {
            if l < a.len() {
                assert(b[l] == a[l]);
            }
        }
    }
    if all_digits(b, radix) {
        assert forall|l: int| 0 <= l < a.len() implies (#[trigger] radix_digit(a[l], radix)) is Some by {
            assert(b[l] == a[l]);
        }
    }
}

/// Checks [`float_text_ok`].
#[verifier::rlimit(60)]
#[verifier::spinoff_prover]
fn float_text_valid(s: &Vec<char>) -> (r: bool)
    ensures
        r == float_text_ok(s@),
{
    let n = s.len();
    let mut e: usize = 0;
    while e < n && s[e] != 'e' && s[e] != 'E'
        invariant
            n == s@.len(),
            e <= n,
            forall|i: int| 0 <= i < e ==> !is_exp_char(s@[i]),
        decreases n - e,
    {
        e += 1;
    }
    let ghost m = s@.subrange(0, e as int);
    let ghost x = s@.subrange(e as int, n as int);
    let mut ok = e >= 2;
    let mut seen_dot = false;
    let mut i: usize = 0;
    while i < e
        invariant
            e <= n,
            n == s@.len(),
            m == s@.subrange(0, e as int),
            i <= e,
            ok == (e >= 2 && (forall|j: int| 0 <= j < i ==> m[j] == '.' || radix_digit(m[j], 10) is Some)
                && (forall|j: int, l: int| 0 <= j < l < i && m[j] == '.' ==> m[l] != '.')),
            seen_dot == (exists|j: int| 0 <= j < i && m[j] == '.'),
        decreases e - i,
    {
        let c = s[i];
        assert(m[i as int] == c);
        if c == '.' {
            if seen_dot {
                ok = false;
            }
            seen_dot = true;
        } else if digit_value(c, 10).is_none() {
            ok = false;
        }
        i += 1;
    }
    let mut exp_ok = true;
    if e < n {
        if n - e < 2 {
            exp_ok = false;
        } else {
            let mut j: usize = e + 1;
            while j < n
                invariant
                    e < n,
                    n == s@.len(),
                    x == s@.subrange(e as int, n as int),
                    e + 1 <= j <= n,
                    exp_ok == all_digits(s@.subrange(e + 1, j as int), 10),
                decreases n - j,
            {
                if digit_value(s[j], 10).is_none() {
                    exp_ok = false;
                }
                proof {
                    assert(s@.subrange(e + 1, j + 1) =~= s@.subrange(e + 1, j as int).push(s@[j as int]));
                    lemma_all_digits_push(s@.subrange(e + 1, j as int), s@[j as int], 10);
                }
                j += 1;
            }
            assert(x.drop_first() =~= s@.subrange(e + 1, n as int));
        }
    }
    let r = ok && seen_dot && exp_ok;
    proof {
        assert(x =~= s@.subrange(e as int, s@.len() as int));
        if r {
            assert(mantissa_ok(m));
            assert(exponent_ok(x));
        } else {
            assert forall|e2: int|
                0 <= e2 <= s@.len() && (forall|i: int| 0 <= i < e2 ==> !is_exp_char(s@[i])) && (e2
                    == s@.len() || is_exp_char(s@[e2])) implies e2 == e by {
                if e2 < e {
                    assert(!is_exp_char(s@[e2]));
                }
                if e2 > e {
                    assert(is_exp_char(s@[e as int]));
                }
            }
        }
    }
    r
}

/// What one step of lexing produced.
pub enum Lexed {
    Token(Token),
    /// A comment was skipped.
    Skip,
    /// An inclusion of the source at this path was asked for.
    Include(String),
}

/// Whether `r` is what `step` describes, and the stream went from `before`
/// to `after`, given that `k` characters of the step were taken before
/// `before`.
pub open spec fn outcome(
    r: Result<Lexed, ErrorType>,
    step: LexStep,
    before: Seq<char>,
    after: Seq<char>,
    k: nat,
) -> bool {
    match step {
        LexStep::Emit(t, n) => match r {
            Ok(Lexed::Token(tok)) => tok@ == t && k <= n <= before.len() + k && after == before.skip(
                n - k,
            ),
            _ => false,
        },
        LexStep::Skip(n) => match r {
            Ok(Lexed::Skip) => k <= n <= before.len() + k && after == before.skip(n - k),
            _ => false,
        },
        LexStep::Include(p, n) => match r {
            Ok(Lexed::Include(s)) => s@ == p && k <= n <= before.len() + k && after == before.skip(
                n - k,
            ),
            _ => false,
        },
        LexStep::Fail(f) => match r {
            Err(e) => reports(e.kind, f),
            _ => false,
        },
    }
}

/// Copies characters into a `String`.
fn string_of(v: &Vec<char>) -> (r: String)
    ensures
        r@ == v@,
{
    let mut r = String::new();
    let mut i: usize = 0;
    while i < v.len()
        invariant
            i <= v@.len(),
            r@ == v@.take(i as int),
        decreases v@.len() - i,
    {
        push_char(&mut r, v[i]);
        assert(v@.take(i as int + 1) =~= v@.take(i as int).push(v@[i as int]));
        i += 1;
    }
    assert(v@.take(v@.len() as int) =~= v@);
    r
}

/// The token or error for a finished numeric literal.
fn finish_number(text: Vec<char>, radix: u32, fractional: bool) -> (r: Result<Lexed, ErrorType>)
    requires
        radix == 8 || radix == 10 || radix == 16,
    ensures
        fractional ==> (float_text_ok(text@) ==> (match r {
            Ok(Lexed::Token(t)) => t@ == TokenView::Float(text@),
            _ => false,
        })) && (!float_text_ok(text@) ==> (match r {
            Err(e) => reports(e.kind, LexFail::Number(NumericKind::Float, text@)),
            _ => false,
        })),
        !fractional ==> match radix_number(text@, radix as nat, i64::MAX as nat) {
            Some(v) => match r {
                Ok(Lexed::Token(t)) => t@ == TokenView::Integer(v as i64),
                _ => false,
            },
            None => match r {
                Err(e) => reports(e.kind, LexFail::Number(NumericKind::Integer, text@)),
                _ => false,
            },
        },
{
    if fractional {
        if float_text_valid(&text) {
            Ok(Lexed::Token(Token::Float(string_of(&text))))
        } else {
            Err(ErrorType::new(ErrorKind::BadNumericLiteral(NumericKind::Float, string_of(&text))))
        }
    } else {
        match radix_number_of(&text, radix, 0x7fff_ffff_ffff_ffff) {
            Some(v) => Ok(Lexed::Token(Token::Integer(v as i64))),
            None => Err(
                ErrorType::new(ErrorKind::BadNumericLiteral(NumericKind::Integer, string_of(&text))),
            ),
        }
    }
}

/// An outcome stated after `j` characters were taken is also one stated
/// before them.
proof fn lemma_outcome_skip(
    r: Result<Lexed, ErrorType>,
    step: LexStep,
    t: Seq<char>,
    j: nat,
    after: Seq<char>,
    k: nat,
)
    requires
        j <= t.len(),
        outcome(r, step, t.skip(j as int), after, k + j),
    ensures
        outcome(r, step, t, after, k),
{
    match step {
        LexStep::Emit(_, n) => {
            assert(t.skip(j as int).skip(n - k - j) =~= t.skip(n - k));
        },
        LexStep::Skip(n) => {
            assert(t.skip(j as int).skip(n - k - j) =~= t.skip(n - k));
        },
        LexStep::Include(_, n) => {
            assert(t.skip(j as int).skip(n - k - j) =~= t.skip(n - k));
        },
        LexStep::Fail(_) => {},
    }
}

/// Relies on `char::from_u32`: the character with scalar value `v`, or
/// `None` for surrogates and values above U+10FFFF.
#[verifier::external_body]
fn char_from_u32(v: u32) -> (r: Option<char>)
    ensures
        r == scalar_char(v as nat),
{
    char::from_u32(v)
}

proof fn lemma_str_prepend_assoc(a: Seq<char>, b: Seq<char>, r: StrScan, j: nat, k: nat)
    ensures
        str_prepend(a, str_prepend(b, r, j), k) == str_prepend(a + b, r, j + k),
{
    match r {
        StrScan::Done(s, n) => {
            assert(a + (b + s) =~= (a + b) + s);
        },
        StrScan::Fail(_) => {},
    }
}

proof fn lemma_space_run_le(s: Seq<char>)
    ensures
        space_run(s) <= s.len(),
    decreases s.len(),
{
    if s.len() > 0 {
        lemma_space_run_le(s.drop_first());
    }
}

proof fn lemma_outcome_shift(r: Result<Lexed, ErrorType>, step: LexStep, t: Seq<char>, after: Seq<char>, w: nat)
    requires
        outcome(r, step, t, after, 1),
    ensures
        outcome(r, shift_step(step, w), t, after, 1 + w),
{
}

/// The first index of the table whose path is `p`.
pub open spec fn source_index(table: Seq<(Seq<char>, Seq<char>)>, p: Seq<char>) -> Option<int> {
    if exists|i: int| 0 <= i < table.len() && table[i].0 == p {
        Some(choose|i: int| 0 <= i < table.len() && table[i].0 == p && forall|j: int| 0 <= j < i ==> table[j].0 != p)
    } else {
        None
    }
}

proof fn lemma_skip_positive(s: Seq<char>)
    ensures
        lex_step(s) matches LexStep::Skip(n) ==> n >= 2,
{
    let w = space_run(s);
    if w < s.len() {
        let c = s[w as int];
        let t = s.skip(w as int + 1);
        if c == '/' && t.len() > 0 && t[0] == '*' {
            match comment_close(t.drop_first()) {
                Some(m) => {},
                None => {},
            }
        }
    }
}

/// What lexing gives once comments are skipped and inclusions are followed.
pub enum LexOut {
    /// A token, and the characters left after it.
    Token(TokenView, Seq<char>),
    Fail(LexFail),
    /// An inclusion of a path that no source is registered under.
    Missing(Seq<char>),
    /// More inclusions were needed than the budget allowed.
    Deep,
}

/// The next token of `s`, following at most `fuel` inclusions through
/// `table`; also how many inclusions were followed.
pub open spec fn lex_next(s: Seq<char>, table: Seq<(Seq<char>, Seq<char>)>, fuel: nat) -> (LexOut, nat)
    decreases fuel, s.len(),
{
    match lex_step(s) {
        LexStep::Emit(t, n) => if n <= s.len() {
            (LexOut::Token(t, s.skip(n as int)), 0nat)
        } else {
            (LexOut::Deep, 0nat)
        },
        LexStep::Fail(f) => (LexOut::Fail(f), 0nat),
        LexStep::Skip(n) => if 0 < n <= s.len() {
            lex_next(s.skip(n as int), table, fuel)
        } else {
            (LexOut::Deep, 0nat)
        },
        LexStep::Include(p, n) => match source_index(table, p) {
            None => (LexOut::Missing(p), 0nat),
            Some(i) => if fuel > 0 && n <= s.len() {
                let r = lex_next(table[i].1 + s.skip(n as int), table, (fuel - 1) as nat);
                (r.0, r.1 + 1)
            } else {
                (LexOut::Deep, 0nat)
            },
        },
    }
}

/// Whether a result of `next_token`, and the stream `after` it, are what
/// `out` describes.
pub open spec fn delivers(r: Result<Token, ErrorType>, out: LexOut, after: Seq<char>) -> bool {
    match out {
        LexOut::Token(t, rest) => r matches Ok(tok) && tok@ == t && after == rest,
        LexOut::Fail(f) => r matches Err(e) && reports(e.kind, f),
        LexOut::Missing(p) => r matches Err(e) && (e.kind matches ErrorKind::IncludeError(q) && q@ == p),
        LexOut::Deep => true,
    }
}

/// Following more inclusions than needed changes nothing, and a budget
/// below what is needed falls short.
proof fn lemma_lex_next_budget(s: Seq<char>, table: Seq<(Seq<char>, Seq<char>)>, f1: nat, f2: nat)
    requires
        !(lex_next(s, table, f1).0 is Deep),
    ensures
        f2 >= lex_next(s, table, f1).1 ==> lex_next(s, table, f2) == lex_next(s, table, f1),
        f2 < lex_next(s, table, f1).1 ==> lex_next(s, table, f2).0 is Deep,
        lex_next(s, table, f1).1 <= f1,
    decreases f1, s.len(),
{
    match lex_step(s) {
        LexStep::Skip(n) => {
            if 0 < n <= s.len() {
                lemma_lex_next_budget(s.skip(n as int), table, f1, f2);
            }
        },
        LexStep::Include(p, n) => {
            if let Some(i) = source_index(table, p) {
                if f1 > 0 && n <= s.len() {
                    let u = table[i].1 + s.skip(n as int);
                    if f2 > 0 {
                        lemma_lex_next_budget(u, table, (f1 - 1) as nat, (f2 - 1) as nat);
                    } else {
                        lemma_lex_next_budget(u, table, (f1 - 1) as nat, 0);
                    }
                }
            }
        },
        _ => {},
    }
}

/// A token other than the end of input takes at least one character.
proof fn lemma_emit_takes(s: Seq<char>)
    ensures
        match lex_step(s) {
            LexStep::Emit(t, n) => !(t is EOF) ==> n >= 1,
            _ => true,
        },
{
}

/// With no inclusion followed, a token other than the end of input leaves
/// fewer characters than there were.
proof fn lemma_lex_next_shrinks(s: Seq<char>, table: Seq<(Seq<char>, Seq<char>)>, fuel: nat)
    ensures
        match lex_next(s, table, fuel) {
            (LexOut::Token(t, rest), u) => u == 0 && !(t is EOF) ==> rest.len() < s.len(),
            _ => true,
        },
    decreases fuel, s.len(),
{
    lemma_emit_takes(s);
    match lex_step(s) {
        LexStep::Skip(n) => {
            if 0 < n <= s.len() {
                lemma_lex_next_shrinks(s.skip(n as int), table, fuel);
            }
        },
        _ => {},
    }
}

/// Every token of `s` up to the end of input, following at most `fuel`
/// inclusions in all; `None` when the budget runs out.
pub open spec fn lex_all(s: Seq<char>, table: Seq<(Seq<char>, Seq<char>)>, fuel: nat) -> Option<
    Result<Seq<TokenView>, LexOut>,
>
    decreases fuel, s.len(),
{
    let (o, u) = lex_next(s, table, fuel);
    match o {
        LexOut::Token(t, rest) => if t is EOF {
            Some(Ok(seq![t]))
        } else if u <= fuel && (u > 0 || rest.len() < s.len()) {
            match lex_all(rest, table, (fuel - u) as nat) {
                Some(Ok(l)) => Some(Ok(seq![t] + l)),
                other => other,
            }
        } else {
            None
        },
        LexOut::Deep => None,
        other => Some(Err(other)),
    }
}

/// Whether `e` reports the failure `out`.
pub open spec fn reports_out(e: ErrorType, out: LexOut) -> bool {
    match out {
        LexOut::Fail(f) => reports(e.kind, f),
        LexOut::Missing(p) => e.kind matches ErrorKind::IncludeError(q) && q@ == p,
        _ => true,
    }
}

/// The tokens `done` followed by what `rest` gives.
pub open spec fn glue(done: Seq<TokenView>, rest: Option<Result<Seq<TokenView>, LexOut>>) -> Option<
    Result<Seq<TokenView>, LexOut>,
> {
    match rest {
        Some(Ok(l)) => Some(Ok(done + l)),
        other => other,
    }
}

/// Lexing `s0` with a budget of `f` gives what lexing `cur` gives with `k`
/// less, once `k` inclusions were followed; below `k` it runs out.
#[verifier::opaque]
pub open spec fn tracks(s0: Seq<char>, tb: Seq<(Seq<char>, Seq<char>)>, cur: Seq<char>, k: nat) -> bool {
    &&& forall|f: nat|
        f >= k ==> #[trigger] lex_next(s0, tb, f) == ({
            let q = lex_next(cur, tb, (f - k) as nat);
            (q.0, q.1 + k)
        })
    &&& forall|f: nat| f < k ==> (#[trigger] lex_next(s0, tb, f)).0 is Deep
}

proof fn lemma_tracks_start(s0: Seq<char>, tb: Seq<(Seq<char>, Seq<char>)>)
    ensures
        tracks(s0, tb, s0, 0),
{
    reveal(tracks);
    assert forall|f: nat| f >= 0 implies #[trigger] lex_next(s0, tb, f) == ({
        let q = lex_next(s0, tb, (f - 0) as nat);
        (q.0, q.1 + 0)
    }) by {
        assert((f - 0) as nat == f);
    }
}

proof fn lemma_tracks_skip(s0: Seq<char>, tb: Seq<(Seq<char>, Seq<char>)>, cur: Seq<char>, k: nat, n: nat)
    requires
        tracks(s0, tb, cur, k),
        lex_step(cur) == LexStep::Skip(n),
        0 < n <= cur.len(),
    ensures
        tracks(s0, tb, cur.skip(n as int), k),
{
    reveal(tracks);
    assert forall|g: nat| #[trigger] lex_next(cur, tb, g) == lex_next(cur.skip(n as int), tb, g) by {}
    assert forall|f: nat| f >= k implies #[trigger] lex_next(s0, tb, f) == ({
        let q = lex_next(cur.skip(n as int), tb, (f - k) as nat);
        (q.0, q.1 + k)
    }) by {
        assert(lex_next(cur, tb, (f - k) as nat) == lex_next(cur.skip(n as int), tb, (f - k) as nat));
    }
}

proof fn lemma_tracks_include(
    s0: Seq<char>,
    tb: Seq<(Seq<char>, Seq<char>)>,
    cur: Seq<char>,
    k: nat,
    p: Seq<char>,
    n: nat,
    next: Seq<char>,
)
    requires
        tracks(s0, tb, cur, k),
        lex_step(cur) == LexStep::Include(p, n),
        n <= cur.len(),
        source_index(tb, p) matches Some(i) && next == tb[i].1 + cur.skip(n as int),
    ensures
        tracks(s0, tb, next, k + 1),
        lex_next(s0, tb, k).0 is Deep,
{
    reveal(tracks);
    assert(lex_next(cur, tb, 0).0 is Deep);
    assert forall|f: nat| f >= k + 1 implies #[trigger] lex_next(s0, tb, f) == ({
        let q = lex_next(next, tb, (f - (k + 1)) as nat);
        (q.0, q.1 + (k + 1))
    }) by {
        let g = (f - (k + 1)) as nat;
        assert((f - k) as nat == g + 1);
        assert(lex_next(cur, tb, g + 1) == ({
            let q = lex_next(next, tb, g);
            (q.0, q.1 + 1)
        }));
    }
    assert forall|f: nat| f < k + 1 implies (#[trigger] lex_next(s0, tb, f)).0 is Deep by {
        if f == k {
            assert((f - k) as nat == 0);
        }
    }
}

proof fn lemma_tracks_at(s0: Seq<char>, tb: Seq<(Seq<char>, Seq<char>)>, cur: Seq<char>, k: nat, f: nat)
    requires
        tracks(s0, tb, cur, k),
    ensures
        f >= k ==> lex_next(s0, tb, f) == ({
            let q = lex_next(cur, tb, (f - k) as nat);
            (q.0, q.1 + k)
        }),
        f < k ==> lex_next(s0, tb, f).0 is Deep,
{
    reveal(tracks);
}

/// Turns characters into tokens.  The characters come from a root reader and
/// from a stack of included sources above it, the innermost read first.
/// Inclusions are looked up in a table of sources by path.
pub struct Tokenizer {
    reader: ResumableChars,
    reader_stack: Vec<ResumableChars>,
    pushback: Option<char>,
    lexemes: Lexemes,
    sources: Vec<(String, String)>,
    limit: usize,
}

impl Tokenizer {
    /// Every character that the tokenizer will still read, in order.
    pub closed spec fn stream(&self) -> Seq<char> {
        pushed(self.pushback) + self.pending()
    }

    /// The characters still in the readers, after any pushed-back one.
    pub closed spec fn pending(&self) -> Seq<char> {
        stack_rest(self.reader_stack@) + self.reader.rest()
    }

    pub closed spec fn pushed_back(&self) -> Option<char> {
        self.pushback
    }

    /// The longest source a reader on the stack may hold.
    pub closed spec fn limit_view(&self) -> nat {
        self.limit as nat
    }

    /// The sources that inclusions may name, as (path, contents).
    pub closed spec fn source_table(&self) -> Seq<(Seq<char>, Seq<char>)> {
        self.sources@.map_values(|p: (String, String)| (p.0@, p.1@))
    }

    /// Number of included sources currently open.
    pub closed spec fn depth(&self) -> nat {
        self.reader_stack@.len()
    }

    pub closed spec fn wf(&self) -> bool {
        &&& self.reader.wf()
        &&& forall|i: int|
            0 <= i < self.reader_stack@.len() ==> (#[trigger] self.reader_stack@[i]).wf()
                && self.reader_stack@[i].size() <= self.limit
        &&& forall|i: int|
            0 <= i < self.sources@.len() ==> (#[trigger] self.sources@[i]).1@.len() <= self.limit
        &&& self.reader_stack@.len() <= stack_levels()
        &&& self.lexemes.is_standard()
    }

    /// Digits of the work left: the root reader first, then each level of
    /// the stack, unused levels counting as full.
    pub closed spec fn work_digits(&self) -> Seq<nat> {
        seq![self.reader.rest().len()] + self.reader_stack@.map_values(
            |r: ResumableChars| r.rest().len(),
        ) + Seq::new(
            (stack_levels() - self.reader_stack@.len()) as nat,
            |i: int| (self.limit + 1) as nat,
        )
    }

    /// A measure of the work left, which every character read lowers.
    pub closed spec fn measure(&self) -> nat {
        2 * digits_value(self.work_digits(), self.limit as nat + 2) + pushed(self.pushback).len()
    }

    /// A tokenizer over `reader` with no included sources.
    pub fn new(reader: ResumableChars) -> (r: Tokenizer)
        requires
            reader.wf(),
        ensures
            r.wf(),
            r.stream() == reader.rest(),
            r.source_table().len() == 0,
            r.depth() == 0,
    {
        let r = Tokenizer {
            reader,
            reader_stack: Vec::new(),
            pushback: None,
            lexemes: Lexemes::default(),
            sources: Vec::new(),
            limit: 0,
        };
        assert(r.stream() =~= reader.rest());
        assert(r.source_table() =~= Seq::<(Seq<char>, Seq<char>)>::empty());
        r
    }

    /// Puts one character back in front of the stream; fails when one is
    /// already there.
    pub fn push_back(&mut self, c: char) -> (r: bool)
        requires
            old(self).wf(),
        ensures
            final(self).wf(),
            r == (old(self).pushed_back() is None),
            r ==> final(self).stream() == seq![c] + old(self).stream() && final(self).measure()
                == old(self).measure() + 1 && final(self).pushed_back() == Some(c),
            !r ==> *final(self) == *old(self),
            final(self).pending() == old(self).pending(),
            final(self).source_table() == old(self).source_table(),
            final(self).limit_view() == old(self).limit_view(),
            final(self).depth() == old(self).depth(),
    {
        match self.pushback {
            None => {
                self.pushback = Some(c);
                true
            },
            Some(_) => false,
        }
    }

    /// The state is sound, the sources are the same, and the measure fell at
    /// least as much as the stream shrank.
    pub closed spec fn follows(&self, o: &Tokenizer) -> bool {
        &&& self.wf()
        &&& self.source_table() == o.source_table()
        &&& self.limit_view() == o.limit_view()
        &&& self.depth() <= o.depth()
        &&& self.stream().len() <= o.stream().len()
        &&& self.measure() + o.stream().len() <= o.measure() + self.stream().len()
    }

    /// Reads past whitespace; gives the first other character.
    fn skip_space(&mut self) -> (r: Option<char>)
        requires
            old(self).wf(),
        ensures
            final(self).follows(old(self)),
            final(self).pushed_back() is None,
            space_run(old(self).stream()) == old(self).stream().len() ==> r is None
                && final(self).stream().len() == 0,
            space_run(old(self).stream()) < old(self).stream().len() ==> r == Some(
                old(self).stream()[space_run(old(self).stream()) as int],
            ) && final(self).stream() == old(self).stream().skip(
                space_run(old(self).stream()) as int + 1,
            ),
    {
        let ghost s0 = self.stream();
        let ghost mut k: nat = 0;
        let mut c = self.next_char();
        loop
            invariant
                self.follows(old(self)),
                self.pushed_back() is None,
                s0 == old(self).stream(),
                k <= s0.len(),
                space_run(s0) == k + space_run(seq_opt(c) + self.stream()),
                s0.skip(k as int) == seq_opt(c) + self.stream(),
                c is None ==> self.stream().len() == 0,
            decreases self.stream().len() + seq_opt(c).len(),
        {
            match c {
                None => {
                    assert(space_run(seq_opt(c) + self.stream()) == 0);
                    assert(s0.skip(k as int).len() == 0);
                    return None;
                },
                Some(ch) => {
                    assert(seq_opt(c) == seq![ch]);
                    proof {
                        lemma_read_at(s0, k as int, seq_opt(c) + self.stream(), ch, self.stream());
                    }
                    if !is_space_char(ch) {
                        assert((seq_opt(c) + self.stream())[0] == ch);
                        assert(space_run(seq_opt(c) + self.stream()) == 0);
                        return c;
                    }
                    let ghost t = seq_opt(c) + self.stream();
                    assert(t.drop_first() =~= self.stream());
                    assert(s0.skip(k as int + 1) =~= self.stream());
                    proof {
                        k = k + 1;
                    }
                    c = self.next_char();
                    proof {
                        assert(s0.skip(k as int) =~= seq_opt(c) + self.stream());
                    }
                },
            }
        }
    }

    /// Reads the rest of an identifier that began with `first`.
    fn lex_ident(&mut self, first: char) -> (r: String)
        requires
            old(self).wf(),
        ensures
            final(self).follows(old(self)),
            r@ == seq![first] + old(self).stream().take(ident_run(old(self).stream()) as int),
            final(self).stream() == old(self).stream().skip(ident_run(old(self).stream()) as int),
            ident_run(old(self).stream()) <= old(self).stream().len(),
    {
        let ghost s0 = self.stream();
        let mut buffer = String::new();
        push_char(&mut buffer, first);
        let ghost mut k: nat = 0;
        loop
            invariant
                self.follows(old(self)),
                s0 == old(self).stream(),
                k <= s0.len(),
                ident_run(s0) == k + ident_run(self.stream()),
                s0.skip(k as int) == self.stream(),
                buffer@ == seq![first] + s0.take(k as int),
            decreases self.stream().len(),
        {
            let ghost before = self.stream();
            match self.next_char() {
                None => {
                    assert(ident_run(before) == 0);
                    return buffer;
                },
                Some(ch) => {
                    if is_ident_continue(ch) {
                        push_char(&mut buffer, ch);
                        proof {
                            assert(before.drop_first() =~= self.stream());
                            assert(s0[k as int] == ch);
                            assert(s0.take(k as int + 1) =~= s0.take(k as int).push(ch));
                            k = k + 1;
                            assert(s0.skip(k as int) =~= self.stream());
                        }
                    } else {
                        self.push_back(ch);
                        assert(self.stream() =~= before);
                        assert(ident_run(before) == 0);
                        return buffer;
                    }
                },
            }
        }
    }

    /// Reads the rest of a path after an opening `#`, up to the closing one.
    fn lex_include(&mut self) -> (r: Result<Lexed, ErrorType>)
        requires
            old(self).wf(),
        ensures
            final(self).follows(old(self)),
            final(self).pushed_back() is None,
            outcome(r, lex_from('#', old(self).stream()), old(self).stream(), final(self).stream(), 1),
    {
        let ghost s0 = self.stream();
        let mut buffer = String::new();
        let ghost mut k: nat = 0;
        loop
            invariant
                self.follows(old(self)),
                s0 == old(self).stream(),
                k <= s0.len(),
                s0.skip(k as int) == self.stream(),
                buffer@ == s0.take(k as int),
                forall|j: int| 0 <= j < k ==> s0[j] != '#',
            decreases self.stream().len(),
        {
            let ghost before = self.stream();
            match self.next_char() {
                None => {
                    proof { lemma_find_none(s0, k, '#'); }
                    return Err(ErrorType::new(ErrorKind::UnexpectedEOF(Location::InInclude)));
                },
                Some(ch) => {
                    proof {
                        lemma_read_at(s0, k as int, before, ch, self.stream());
                    }
                    if ch == self.lexemes.include_delim {
                        proof {
                            assert(s0[k as int] == '#');
                            lemma_find_at(s0, k, '#');
                            assert(s0.skip(k as int + 1) =~= self.stream());
                        }
                        return Ok(Lexed::Include(buffer));
                    }
                    push_char(&mut buffer, ch);
                    proof {
                        assert(s0[k as int] == ch);
                        assert(s0.take(k as int + 1) =~= s0.take(k as int).push(ch));
                        k = k + 1;
                        assert(s0.skip(k as int) =~= self.stream());
                    }
                },
            }
        }
    }

    /// Reads what follows a `/`: a comment to skip, or the operator itself.
    fn lex_slash(&mut self) -> (r: Result<Lexed, ErrorType>)
        requires
            old(self).wf(),
        ensures
            final(self).follows(old(self)),
            outcome(r, lex_from('/', old(self).stream()), old(self).stream(), final(self).stream(), 1),
    {
        let ghost s0 = self.stream();
        match self.next_char() {
            None => {
                assert(self.stream() =~= s0.skip(0));
                Ok(Lexed::Token(Token::Oper('/')))
            },
            Some(ch) => {
                if ch != self.lexemes.com_inner {
                    self.push_back(ch);
                    assert(self.stream() =~= s0);
                    assert(s0.skip(0) =~= s0);
                    return Ok(Lexed::Token(Token::Oper('/')));
                }
                let ghost u = self.stream();
                assert(u =~= s0.drop_first());
                if self.skip_comment() {
                    assert(s0.skip(comment_close(u).unwrap() as int + 1) =~= self.stream());
                    Ok(Lexed::Skip)
                } else {
                    assert(self.stream() =~= s0.skip(s0.len() as int));
                    Ok(Lexed::Token(Token::EOF))
                }
            },
        }
    }

    /// Reads a comment body up to and including the first `*/`; tells
    /// whether one was found before the end of the stream.
    fn skip_comment(&mut self) -> (r: bool)
        requires
            old(self).wf(),
        ensures
            final(self).follows(old(self)),
            final(self).pushed_back() is None,
            r == (comment_close(old(self).stream()) is Some),
            r ==> comment_close(old(self).stream()).unwrap() <= old(self).stream().len()
                && final(self).stream() == old(self).stream().skip(
                comment_close(old(self).stream()).unwrap() as int,
            ),
            !r ==> final(self).stream().len() == 0,
    {
        let ghost u = self.stream();
        let ghost mut k: nat = 0;
        loop
            invariant
                self.follows(old(self)),
                u == old(self).stream(),
                k <= u.len(),
                u.skip(k as int) == self.stream(),
                comment_close(u) == match comment_close(self.stream()) {
                    Some(i) => Some(i + k),
                    None => None::<nat>,
                },
            decreases self.stream().len(),
        {
            let ghost before = self.stream();
            match self.next_char() {
                None => {
                    return false;
                },
                Some(x) => {
                    proof {
                        lemma_read_at(u, k as int, before, x, self.stream());
                    }
                    if x == self.lexemes.com_inner {
                        let ghost mid = self.stream();
                        match self.next_char() {
                            None => {
                                assert(before.len() == 1);
                                return false;
                            },
                            Some(y) => {
                                proof {
                                    lemma_read_at(u, k as int + 1, mid, y, self.stream());
                                }
                                if y == self.lexemes.com_outer {
                                    assert(comment_close(before) == Some(2nat));
                                    return true;
                                }
                                self.push_back(y);
                                proof {
                                    assert(self.stream() =~= mid);
                                    assert(comment_close(before) == match comment_close(mid) {
                                        Some(i) => Some(i + 1),
                                        None => None::<nat>,
                                    });
                                    k = k + 1;
                                }
                            },
                        }
                    } else {
                        proof {
                            assert(comment_close(before) == match comment_close(self.stream()) {
                                Some(i) => Some(i + 1),
                                None => None::<nat>,
                            });
                            k = k + 1;
                        }
                    }
                },
            }
        }
    }

    /// Reads the rest of a numeric literal whose text so far is `pre`.
    fn number_body(&mut self, pre: Vec<char>, radix: u32, fractional: bool, Ghost(k): Ghost<nat>) -> (r: Result<Lexed, ErrorType>)
        requires
            old(self).wf(),
            radix == 8 || radix == 10 || radix == 16,
        ensures
            final(self).follows(old(self)),
            outcome(
                r,
                lex_number_body(pre@, radix as nat, fractional, old(self).stream(), k),
                old(self).stream(),
                final(self).stream(),
                k,
            ),
    {
        let ghost u = self.stream();
        let mut buffer = pre;
        let mut floating = fractional;
        let ghost mut m: nat = 0;
        loop
            invariant
                self.follows(old(self)),
                radix == 8 || radix == 10 || radix == 16,
                u == old(self).stream(),
                m <= u.len(),
                u.skip(m as int) == self.stream(),
                buffer@ == pre@ + u.take(m as int),
                number_run(u, radix as nat, fractional) == ({
                    let (n, f) = number_run(self.stream(), radix as nat, floating);
                    (n + m, f)
                }),
            ensures
                self.follows(old(self)),
                m <= u.len(),
                u.skip(m as int) == self.stream(),
                buffer@ == pre@ + u.take(m as int),
                number_run(u, radix as nat, fractional) == (m, floating),
            decreases self.stream().len(),
        {
            let ghost before = self.stream();
            match self.next_char() {
                None => {
                    assert(number_run(self.stream(), radix as nat, floating) == (0nat, floating));
                    break;
                },
                Some(d) => {
                    proof {
                        lemma_read_at(u, m as int, before, d, self.stream());
                    }
                    let is_digit = digit_value(d, radix).is_some();
                    let is_exp = char_in(self.lexemes.exponent_chars.as_str(), d);
                    proof {
                        assert(self.lexemes.exponent_chars@ == seq!['e', 'E']);
                        if d == 'e' {
                            assert(self.lexemes.exponent_chars@[0] == d);
                        }
                        if d == 'E' {
                            assert(self.lexemes.exponent_chars@[1] == d);
                        }
                    }
                    if is_digit || d == self.lexemes.radix_point || (floating && is_exp) {
                        if d == self.lexemes.radix_point && !is_digit {
                            floating = true;
                        }
                        buffer.push(d);
                        proof {
                            m = m + 1;
                        }
                    } else {
                        self.push_back(d);
                        assert(self.stream() =~= before);
                        assert(number_run(self.stream(), radix as nat, floating) == (0nat, floating));
                        break;
                    }
                },
            }
        }
        finish_number(buffer, radix, floating)
    }

    /// Reads the rest of a numeric literal that began with the digit `c`.
    #[verifier::rlimit(40)]
    fn lex_digits(&mut self, c: char) -> (r: Result<Lexed, ErrorType>)
        requires
            old(self).wf(),
            radix_digit(c, 10) is Some,
        ensures
            final(self).follows(old(self)),
            outcome(r, lex_number(c, old(self).stream()), old(self).stream(), final(self).stream(), 1),
    {
        let ghost t = self.stream();
        if c != '0' {
            let mut pre: Vec<char> = Vec::new();
            pre.push(c);
            assert(pre@ =~= seq![c]);
            return self.number_body(pre, 10, false, Ghost(1));
        }
        match self.next_char() {
            None => {
                assert(self.stream() =~= t.skip(0));
                Ok(Lexed::Token(Token::Integer(0)))
            },
            Some(n) => {
                proof {
                    assert(t.skip(0) =~= t);
                    lemma_read_at(t, 0, t, n, self.stream());
                }
                let ghost u = self.stream();
                let mut pre: Vec<char> = Vec::new();
                if n == self.lexemes.esc_hex {
                    let r = self.number_body(pre, 16, false, Ghost(2));
                    proof { lemma_outcome_skip(r, lex_number(c, t), t, 1, self.stream(), 1); }
                    r
                } else if n == self.lexemes.esc_oct {
                    let r = self.number_body(pre, 8, false, Ghost(2));
                    proof { lemma_outcome_skip(r, lex_number(c, t), t, 1, self.stream(), 1); }
                    r
                } else if n == self.lexemes.radix_point {
                    pre.push('0');
                    pre.push('.');
                    assert(pre@ =~= seq!['0', '.']);
                    let r = self.number_body(pre, 10, true, Ghost(2));
                    proof { lemma_outcome_skip(r, lex_number(c, t), t, 1, self.stream(), 1); }
                    r
                } else if digit_value(n, 10).is_some() {
                    pre.push('0');
                    pre.push(n);
                    assert(pre@ =~= seq!['0', n]);
                    let r = self.number_body(pre, 10, false, Ghost(2));
                    proof { lemma_outcome_skip(r, lex_number(c, t), t, 1, self.stream(), 1); }
                    r
                } else {
                    self.push_back(n);
                    assert(self.stream() =~= t);
                    assert(t.skip(0) =~= t);
                    Ok(Lexed::Token(Token::Integer(0)))
                }
            },
        }
    }

    /// The character a single-character escape `e` stands for.
    fn escape_of(&self, e: char) -> (r: char)
        requires
            self.wf(),
        ensures
            r == escaped(e),
    {
        let mut i: usize = 0;
        while i < self.lexemes.escapes.len()
            invariant
                self.wf(),
                i <= self.lexemes.escapes@.len(),
                forall|j: int| 0 <= j < i ==> self.lexemes.escapes@[j].0 != e,
            decreases self.lexemes.escapes@.len() - i,
        {
            let (k, v) = self.lexemes.escapes[i];
            if k == e {
                return v;
            }
            i += 1;
        }
        assert(self.lexemes.escapes@[0].0 != e);
        assert(self.lexemes.escapes@[1].0 != e);
        assert(self.lexemes.escapes@[2].0 != e);
        e
    }

    /// Reads the digits of a numeric escape.  Gives `None` when the stream
    /// ends inside them.
    fn read_digits(&mut self, radix: u32) -> (r: Option<Vec<char>>)
        requires
            old(self).wf(),
            radix == 8 || radix == 16,
        ensures
            final(self).follows(old(self)),
            ({
                let u = old(self).stream();
                let n = digit_run(u, radix as nat);
                match r {
                    None => n >= u.len(),
                    Some(d) => n < u.len() && d@ == u.take(n as int) && final(self).stream()
                        == u.skip(n as int),
                }
            }),
    {
        let ghost u = self.stream();
        let mut digits: Vec<char> = Vec::new();
        let ghost mut m: nat = 0;
        loop
            invariant
                self.follows(old(self)),
                radix == 8 || radix == 16,
                u == old(self).stream(),
                m <= u.len(),
                u.skip(m as int) == self.stream(),
                digits@ == u.take(m as int),
                digit_run(u, radix as nat) == m + digit_run(self.stream(), radix as nat),
            decreases self.stream().len(),
        {
            let ghost before = self.stream();
            match self.next_char() {
                None => {
                    return None;
                },
                Some(d) => {
                    proof {
                        lemma_read_at(u, m as int, before, d, self.stream());
                    }
                    if digit_value(d, radix).is_some() {
                        digits.push(d);
                        proof {
                            m = m + 1;
                        }
                    } else {
                        self.push_back(d);
                        assert(self.stream() =~= before);
                        return Some(digits);
                    }
                },
            }
        }
    }

    /// Reads a string literal body up to the closing `delim`.
    #[verifier::rlimit(100)]
    fn lex_string(&mut self, delim: char) -> (r: Result<String, ErrorType>)
        requires
            old(self).wf(),
        ensures
            final(self).follows(old(self)),
            match scan_string(old(self).stream(), delim) {
                StrScan::Done(s, n) => match r {
                    Ok(x) => x@ == s && n <= old(self).stream().len() && final(self).stream()
                        == old(self).stream().skip(n as int),
                    _ => false,
                },
                StrScan::Fail(f) => match r {
                    Err(e) => reports(e.kind, f),
                    _ => false,
                },
            },
    {
        let ghost t = self.stream();
        let mut buffer = String::new();
        let ghost mut k: nat = 0;
        assert(str_prepend(buffer@, scan_string(t, delim), 0) =~= scan_string(t, delim)) by {
            match scan_string(t, delim) {
                StrScan::Done(s, n) => {
                    assert(Seq::<char>::empty() + s =~= s);
                },
                _ => {},
            }
        }
        assert(t.skip(0) =~= t);
        loop
            invariant
                self.follows(old(self)),
                t == old(self).stream(),
                k <= t.len(),
                t.skip(k as int) == self.stream(),
                scan_string(t, delim) == str_prepend(buffer@, scan_string(self.stream(), delim), k),
            decreases self.stream().len(),
        {
            let ghost before = self.stream();
            let c = self.next_char();
            let ch = match c {
                None => {
                    return Err(ErrorType::new(ErrorKind::UnexpectedEOF(Location::InString)));
                },
                Some(ch) => ch,
            };
            proof {
                lemma_read_at(t, k as int, before, ch, self.stream());
            }
            if ch == self.lexemes.esc_intro {
                let ghost mid = self.stream();
                let e = match self.next_char() {
                    None => {
                        return Err(ErrorType::new(ErrorKind::UnexpectedEOF(Location::InStringEscape)));
                    },
                    Some(e) => e,
                };
                proof {
                    lemma_read_at(t, k as int + 1, mid, e, self.stream());
                    assert(before[1] == e);
                    assert(before.skip(2) =~= self.stream());
                }
                if e == self.lexemes.esc_hex || e == self.lexemes.esc_oct {
                    let radix: u32 = if e == self.lexemes.esc_hex {
                        16
                    } else {
                        8
                    };
                    let kind = if e == self.lexemes.esc_hex {
                        EscapeKind::Hexadecimal
                    } else {
                        EscapeKind::Octal
                    };
                    let ghost u = self.stream();
                    let digits = match self.read_digits(radix) {
                        None => {
                            return Err(ErrorType::new(ErrorKind::UnexpectedEOF(Location::InStringEscape)));
                        },
                        Some(d) => d,
                    };
                    let ghost n = digits@.len();
                    let value = match radix_number_of(&digits, radix, 0xffff_ffff) {
                        None => {
                            return Err(ErrorType::new(ErrorKind::BadEscapeValue(kind, string_of(&digits))));
                        },
                        Some(v) => v,
                    };
                    let ch2 = match char_from_u32(value as u32) {
                        None => {
                            return Err(ErrorType::new(ErrorKind::BadEscapeValue(kind, string_of(&digits))));
                        },
                        Some(x) => x,
                    };
                    proof {
                        assert(radix_number(digits@, radix as nat, u32::MAX as nat) == Some(value as nat));
                        assert(before[0] == '\\');
                        assert(before.skip(2) =~= u);
                        assert(scan_string(before, delim) == str_prepend(seq![ch2], scan_string(u.skip(n as int), delim), 2 + n));
                        lemma_str_prepend_assoc(buffer@, seq![ch2], scan_string(self.stream(), delim), 2 + n, k);
                        assert(u.skip(n as int) == self.stream());
                        assert(t.skip(k as int + 2 + n) =~= self.stream());
                        k = k + 2 + n;
                    }
                    let ghost old_buf = buffer@;
                    push_char(&mut buffer, ch2);
                    assert(buffer@ =~= old_buf + seq![ch2]);
                } else {
                    let x = self.escape_of(e);
                    proof {
                        assert(scan_string(before, delim) == str_prepend(seq![x], scan_string(before.skip(2), delim), 2));
                        lemma_str_prepend_assoc(buffer@, seq![x], scan_string(self.stream(), delim), 2, k);
                        k = k + 2;
                    }
                    let ghost old_buf = buffer@;
                    push_char(&mut buffer, x);
                    assert(buffer@ =~= old_buf + seq![x]);
                }
            } else if ch == delim {
                proof {
                    assert(scan_string(before, delim) == StrScan::Done(Seq::<char>::empty(), 1));
                    assert(buffer@ + Seq::<char>::empty() =~= buffer@);
                }
                return Ok(buffer);
            } else {
                proof {
                    assert(scan_string(before, delim) == str_prepend(seq![ch], scan_string(before.skip(1), delim), 1));
                    lemma_str_prepend_assoc(buffer@, seq![ch], scan_string(self.stream(), delim), 1, k);
                    k = k + 1;
                }
                let ghost old_buf = buffer@;
                push_char(&mut buffer, ch);
                assert(buffer@ =~= old_buf + seq![ch]);
            }
        }
    }

    /// Makes the source `contents` available to inclusions of `path`.
    pub fn add_source(&mut self, path: String, contents: String)
        requires
            old(self).wf(),
        ensures
            final(self).wf(),
            final(self).source_table() == old(self).source_table().push((path@, contents@)),
            final(self).stream() == old(self).stream(),
            final(self).depth() == old(self).depth(),
    {
        let n = contents.unicode_len();
        if n > self.limit {
            self.limit = n;
        }
        self.sources.push((path, contents));
        proof {
            assert(self.source_table() =~= old(self).source_table().push((path@, contents@)));
            assert forall|i: int| 0 <= i < self.sources@.len() implies (#[trigger] self.sources@[i]).1@.len() <= self.limit by {
                if i < old(self).sources@.len() {
                    assert(self.sources@[i] == old(self).sources@[i]);
                }
            }
        }
    }

    /// Opens `rc` above the current sources, unless inclusion is already
    /// nested as deep as allowed.
    pub fn push_reader(&mut self, rc: ResumableChars) -> (r: Result<(), ErrorType>)
        requires
            old(self).wf(),
            rc.wf(),
        ensures
            final(self).wf(),
            final(self).source_table() == old(self).source_table(),
            final(self).pushed_back() == old(self).pushed_back(),
            old(self).depth() >= MAX_INCLUDE_RECURSIONS ==> match r {
                Err(e) => e.kind == ErrorKind::TooManyRecursions(old(self).depth() as usize)
                    && *final(self) == *old(self),
                _ => false,
            },
            old(self).depth() < MAX_INCLUDE_RECURSIONS ==> r is Ok && final(self).stream() == pushed(
                old(self).pushed_back(),
            ) + rc.rest() + old(self).pending() && final(self).depth() == old(self).depth() + 1,
            old(self).depth() < MAX_INCLUDE_RECURSIONS && rc.size() <= old(self).limit_view()
                && old(self).pushed_back() is None ==> final(self).measure() < old(self).measure(),
            rc.size() <= old(self).limit_view() ==> final(self).limit_view() == old(self).limit_view(),
    {
        let depth = self.reader_stack.len();
        if depth >= MAX_INCLUDE_RECURSIONS {
            return Err(ErrorType::new(ErrorKind::TooManyRecursions(depth)));
        }
        let ghost y = self.work_digits();
        let n = rc.chars.len();
        if n > self.limit {
            self.limit = n;
        }
        let ghost below = self.reader_stack@;
        self.reader_stack.push(rc);
        proof {
            assert(self.reader_stack@.drop_last() =~= below);
            assert forall|i: int| 0 <= i < self.reader_stack@.len() implies (#[trigger] self.reader_stack@[i]).wf()
                && self.reader_stack@[i].size() <= self.limit by {
                if i < below.len() {
                    assert(self.reader_stack@[i] == below[i]);
                    assert(old(self).reader_stack@[i].wf());
                }
            }
            assert(self.stream() =~= pushed(old(self).pushed_back()) + rc.rest() + old(self).pending());
            if rc.size() <= old(self).limit_view() && old(self).pushed_back() is None {
                let x = self.work_digits();
                let b = self.limit as nat + 2;
                assert(x.len() == y.len());
                assert forall|j: int| 0 <= j <= depth implies x[j] == y[j] by {
                    if j > 0 {
                        assert(self.reader_stack@[j - 1] == below[j - 1]);
                    }
                }
                assert(x[depth + 1] < y[depth + 1]);
                lemma_digits_lex(x, y, depth + 1, b);
            }
        }
        Ok(())
    }

    /// Index of the first source registered under `path`.
    fn find_source(&self, path: &String) -> (r: Option<usize>)
        ensures
            match r {
                Some(i) => source_index(self.source_table(), path@) == Some(i as int) && i < self.sources@.len(),
                None => source_index(self.source_table(), path@) is None,
            },
    {
        let mut i: usize = 0;
        while i < self.sources.len()
            invariant
                i <= self.sources@.len(),
                forall|j: int| 0 <= j < i ==> self.source_table()[j].0 != path@,
            decreases self.sources@.len() - i,
        {
            if same_text(self.sources[i].0.as_str(), path.as_str()) {
                proof {
                    let t = self.source_table();
                    assert(t[i as int].0 == path@);
                    let c = choose|k: int| 0 <= k < t.len() && t[k].0 == path@ && forall|j: int| 0 <= j < k ==> t[j].0 != path@;
                    assert(c == i) by {
                        if c < i {
                        } else if c > i {
                            assert(t[i as int].0 != path@);
                        }
                    }
                }
                return Some(i);
            }
            i += 1;
        }
        None
    }

    /// One step of lexing: a token, a skipped comment, or an inclusion asked for.
    fn lex_one(&mut self) -> (r: Result<Lexed, ErrorType>)
        requires
            old(self).wf(),
        ensures
            final(self).follows(old(self)),
            outcome(r, lex_step(old(self).stream()), old(self).stream(), final(self).stream(), 0),
            (r matches Ok(Lexed::Token(Token::EOF))) || final(self).measure() < old(self).measure(),
            r matches Ok(Lexed::Include(_)) ==> final(self).pushed_back() is None,
    {
        let ghost s = self.stream();
        let ghost w = space_run(s);
        proof {
            lemma_space_run_le(s);
        }
        let c = match self.skip_space() {
            None => {
                assert(self.stream() =~= s.skip(s.len() as int));
                return Ok(Lexed::Token(Token::EOF));
            },
            Some(c) => c,
        };
        let ghost t = self.stream();
        let quote = char_in(self.lexemes.string_delim.as_str(), c);
        proof {
            assert(self.lexemes.string_delim@ == seq!['\'', '"']);
            if c == '\'' {
                assert(self.lexemes.string_delim@[0] == c);
            }
            if c == '"' {
                assert(self.lexemes.string_delim@[1] == c);
            }
        }
        let r = if c == self.lexemes.com_outer {
            self.lex_slash()
        } else if c == self.lexemes.include_delim {
            self.lex_include()
        } else if quote {
            match self.lex_string(c) {
                Ok(x) => Ok(Lexed::Token(Token::String(x))),
                Err(e) => Err(e),
            }
        } else if digit_value(c, 10).is_some() {
            self.lex_digits(c)
        } else if is_ident_start(c) {
            let x = self.lex_ident(c);
            Ok(Lexed::Token(Token::Ident(x)))
        } else {
            assert(t.skip(0) =~= t);
            Ok(Lexed::Token(Token::Oper(c)))
        };
        proof {
            assert(outcome(r, lex_from(c, t), t, self.stream(), 1));
            lemma_outcome_shift(r, lex_from(c, t), t, self.stream(), w);
            lemma_outcome_skip(r, lex_step(s), s, w + 1, self.stream(), 0);
        }
        r
    }

    /// Reads the next token.  Comments are skipped and inclusions are
    /// opened on the way: with room for `fuel` more levels of inclusion,
    /// the result is what [`lex_next`] describes.
    #[verifier::rlimit(100)]
    #[verifier::spinoff_prover]
    pub fn next_token(&mut self) -> (r: Result<Token, ErrorType>)
        requires
            old(self).wf(),
        ensures
            final(self).wf(),
            final(self).source_table() == old(self).source_table(),
            match r {
                Ok(t) => t is EOF || final(self).measure() < old(self).measure(),
                Err(_) => true,
            },
            forall|fuel: nat|
                old(self).depth() + fuel <= MAX_INCLUDE_RECURSIONS ==> delivers(
                    r,
                    (#[trigger] lex_next(old(self).stream(), old(self).source_table(), fuel)).0,
                    final(self).stream(),
                ) && (lex_next(old(self).stream(), old(self).source_table(), fuel).0 is Token
                    ==> final(self).depth() <= old(self).depth() + lex_next(
                    old(self).stream(),
                    old(self).source_table(),
                    fuel,
                ).1),
    {
        let ghost s0 = self.stream();
        let ghost tb = self.source_table();
        let ghost mut k: nat = 0;
        proof {
            lemma_tracks_start(s0, tb);
        }
        loop
            invariant
                self.wf(),
                self.source_table() == tb,
                tb == old(self).source_table(),
                s0 == old(self).stream(),
                self.measure() <= old(self).measure(),
                self.depth() <= old(self).depth() + k,
                tracks(s0, tb, self.stream(), k),
            decreases self.measure(),
        {
            let ghost cur = self.stream();
            let ghost dc = self.depth();
            proof {
                lemma_skip_positive(cur);
            }
            let step = self.lex_one();
            match step {
                Err(e) => {
                    proof {
                        assert forall|fuel: nat| old(self).depth() + fuel <= MAX_INCLUDE_RECURSIONS implies delivers(
                            Err(e),
                            (#[trigger] lex_next(s0, tb, fuel)).0,
                            self.stream(),
                        ) by {
                            lemma_tracks_at(s0, tb, cur, k, fuel);
                        }
                    }
                    return Err(e);
                },
                Ok(Lexed::Token(t)) => {
                    proof {
                        assert forall|fuel: nat| old(self).depth() + fuel <= MAX_INCLUDE_RECURSIONS implies delivers(
                            Ok(t),
                            (#[trigger] lex_next(s0, tb, fuel)).0,
                            self.stream(),
                        ) && (lex_next(s0, tb, fuel).0 is Token ==> self.depth() <= old(self).depth()
                            + lex_next(s0, tb, fuel).1) by {
                            lemma_tracks_at(s0, tb, cur, k, fuel);
                        }
                    }
                    return Ok(t);
                },
                Ok(Lexed::Skip) => {
                    proof {
                        lemma_tracks_skip(s0, tb, cur, k, lex_step(cur)->Skip_0);
                    }
                },
                Ok(Lexed::Include(path)) => {
                    let opened = self.open_source(&path);
                    match opened {
                        Err(e) => {
                            proof {
                                assert forall|fuel: nat| old(self).depth() + fuel <= MAX_INCLUDE_RECURSIONS implies delivers(
                                    Err(e),
                                    (#[trigger] lex_next(s0, tb, fuel)).0,
                                    self.stream(),
                                ) by {
                                    lemma_tracks_at(s0, tb, cur, k, fuel);
                                    if source_index(tb, path@) is Some {
                                        lemma_tracks_include(s0, tb, cur, k, path@, lex_step(cur)->Include_1,
                                            tb[source_index(tb, path@).unwrap()].1 + cur.skip(lex_step(cur)->Include_1 as int));
                                    }
                                }
                            }
                            return Err(e);
                        },
                        Ok(()) => {
                            proof {
                                lemma_tracks_include(s0, tb, cur, k, path@, lex_step(cur)->Include_1, self.stream());
                                k = k + 1;
                            }
                        },
                    }
                },
            }
        }
    }

    /// Opens the source registered under `path`.
    fn open_source(&mut self, path: &String) -> (r: Result<(), ErrorType>)
        requires
            old(self).wf(),
            old(self).pushed_back() is None,
        ensures
            final(self).wf(),
            final(self).source_table() == old(self).source_table(),
            r is Ok ==> final(self).measure() < old(self).measure(),
            r is Err ==> final(self).measure() <= old(self).measure(),
            match source_index(old(self).source_table(), path@) {
                None => r matches Err(e) && (e.kind matches ErrorKind::IncludeError(q) && q@ == path@),
                Some(i) => (old(self).depth() >= MAX_INCLUDE_RECURSIONS ==> r is Err) && (old(
                    self,
                ).depth() < MAX_INCLUDE_RECURSIONS ==> r is Ok && final(self).stream()
                    == old(self).source_table()[i].1 + old(self).stream() && final(self).depth()
                    == old(self).depth() + 1),
            },
    {
        match self.find_source(path) {
            None => Err(ErrorType::new(ErrorKind::IncludeError(path.clone()))),
            Some(i) => {
                let contents = self.sources[i].1.clone();
                proof {
                    assert(self.sources@[i as int].1@.len() <= self.limit);
                }
                let rc = ResumableChars::new(contents);
                let r = self.push_reader(rc);
                assert(old(self).stream() == old(self).pending());
                r
            },
        }
    }

    /// Reads every remaining token, up to and including the end of input:
    /// with room for `fuel` more levels of inclusion, what [`lex_all`]
    /// describes with that budget.
    #[verifier::rlimit(100)]
    #[verifier::spinoff_prover]
    pub fn tokens(&mut self) -> (r: Result<Vec<Token>, ErrorType>)
        requires
            old(self).wf(),
        ensures
            final(self).wf(),
            match r {
                Ok(v) => v@.len() >= 1 && v@.last()@ is EOF && forall|i: int|
                    0 <= i < v@.len() - 1 ==> !(v@[i]@ is EOF),
                Err(_) => true,
            },
            forall|fuel: nat|
                old(self).depth() + fuel <= MAX_INCLUDE_RECURSIONS ==> match #[trigger] lex_all(
                    old(self).stream(),
                    old(self).source_table(),
                    fuel,
                ) {
                    Some(Ok(l)) => r matches Ok(v) && v@.map_values(|t: Token| t@) == l,
                    Some(Err(o)) => r matches Err(e) && reports_out(e, o),
                    None => true,
                },
    {
        let ghost s0 = self.stream();
        let ghost tb = self.source_table();
        let ghost d0 = self.depth();
        let ghost mut used: nat = 0;
        let ghost mut lost = false;
        let mut out: Vec<Token> = Vec::new();
        assert(out@.map_values(|t: Token| t@) =~= Seq::<TokenView>::empty());
        assert forall|f: nat| d0 + f <= MAX_INCLUDE_RECURSIONS && f >= used implies #[trigger] lex_all(s0, tb, f)
            == glue(out@.map_values(|t: Token| t@), lex_all(self.stream(), tb, (f - used) as nat)) by {
            match lex_all(s0, tb, f) {
                Some(Ok(l)) => {
                    assert(Seq::<TokenView>::empty() + l =~= l);
                },
                _ => {},
            }
        }
        loop
            invariant
                self.wf(),
                self.source_table() == tb,
                tb == old(self).source_table(),
                s0 == old(self).stream(),
                d0 == old(self).depth(),
                forall|i: int| 0 <= i < out@.len() ==> !(out@[i]@ is EOF),
                !lost ==> self.depth() <= d0 + used,
                forall|f: nat|
                    d0 + f <= MAX_INCLUDE_RECURSIONS && f >= used && !lost ==> #[trigger] lex_all(s0, tb, f)
                        == glue(out@.map_values(|t: Token| t@), lex_all(self.stream(), tb, (f - used) as nat)),
                forall|f: nat|
                    d0 + f <= MAX_INCLUDE_RECURSIONS && (f < used || lost) ==> (#[trigger] lex_all(s0, tb, f)) is None,
            decreases self.measure(),
        {
            let ghost cur = self.stream();
            let ghost dc = self.depth();
            let ghost views = out@.map_values(|t: Token| t@);
            let ghost gmax: nat = if d0 + used <= MAX_INCLUDE_RECURSIONS {
                (MAX_INCLUDE_RECURSIONS - d0 - used) as nat
            } else {
                0
            };
            let t = match self.next_token() {
                Ok(t) => t,
                Err(e) => {
                    proof {
                        assert forall|f: nat| d0 + f <= MAX_INCLUDE_RECURSIONS implies match #[trigger] lex_all(s0, tb, f) {
                            Some(Ok(l)) => false,
                            Some(Err(o)) => reports_out(e, o),
                            None => true,
                        } by {
                            if f >= used && !lost {
                                let g = (f - used) as nat;
                                assert(dc + g <= MAX_INCLUDE_RECURSIONS);
                                assert(delivers(Err(e), lex_next(cur, tb, g).0, self.stream()));
                            }
                        }
                    }
                    return Err(e);
                },
            };
            let end = t.to_type() == crate::lang::token::TokType::EOF;
            let ghost tv = t@;
            out.push(t);
            proof {
                assert(out@.map_values(|t: Token| t@) =~= views.push(tv));
            }
            if end {
                proof {
                    assert forall|f: nat| d0 + f <= MAX_INCLUDE_RECURSIONS implies match #[trigger] lex_all(s0, tb, f) {
                        Some(Ok(l)) => out@.map_values(|t: Token| t@) == l,
                        Some(Err(o)) => false,
                        None => true,
                    } by {
                        if f >= used && !lost {
                            let g = (f - used) as nat;
                            assert(dc + g <= MAX_INCLUDE_RECURSIONS);
                            assert(delivers(Ok(Token::EOF), lex_next(cur, tb, g).0, self.stream()) || true);
                            if !(lex_next(cur, tb, g).0 is Deep) {
                                assert(views + seq![tv] =~= views.push(tv));
                            }
                        }
                    }
                }
                return Ok(out);
            }
            proof {
                let after = self.stream();
                if lost || d0 + used > MAX_INCLUDE_RECURSIONS {
                    lost = true;
                } else if lex_next(cur, tb, gmax).0 is Deep {
                    assert forall|g: nat| g <= gmax implies (#[trigger] lex_next(cur, tb, g)).0 is Deep by {
                        if !(lex_next(cur, tb, g).0 is Deep) {
                            lemma_lex_next_budget(cur, tb, g, gmax);
                        }
                    }
                    assert forall|f: nat| d0 + f <= MAX_INCLUDE_RECURSIONS implies (#[trigger] lex_all(s0, tb, f)) is None by {
                        if f >= used {
                            let g = (f - used) as nat;
                            assert(lex_next(cur, tb, g).0 is Deep);
                        }
                    }
                    lost = true;
                } else {
                    let u = lex_next(cur, tb, gmax).1;
                    lemma_lex_next_budget(cur, tb, gmax, gmax);
                    lemma_lex_next_shrinks(cur, tb, gmax);
                    assert(dc + gmax <= MAX_INCLUDE_RECURSIONS);
                    assert forall|f: nat|
                        d0 + f <= MAX_INCLUDE_RECURSIONS && f >= used + u implies #[trigger] lex_all(s0, tb, f)
                            == glue(views.push(tv), lex_all(after, tb, (f - used - u) as nat)) by {
                        let g = (f - used) as nat;
                        lemma_lex_next_budget(cur, tb, gmax, g);
                        match lex_all(after, tb, (g - u) as nat) {
                            Some(Ok(l)) => {
                                assert(views + (seq![tv] + l) =~= views.push(tv) + l);
                            },
                            _ => {},
                        }
                    }
                    assert forall|f: nat|
                        d0 + f <= MAX_INCLUDE_RECURSIONS && f < used + u implies (#[trigger] lex_all(s0, tb, f)) is None by {
                        if f >= used {
                            let g = (f - used) as nat;
                            lemma_lex_next_budget(cur, tb, gmax, g);
                        }
                    }
                    used = used + u;
                }
            }
        }
    }

    /// Reads the next character of the stream.  Included sources are read
    /// innermost first; exhausted ones above the source that supplies the
    /// character are closed.
    pub fn next_char(&mut self) -> (r: Option<char>)
        requires
            old(self).wf(),
        ensures
            final(self).wf(),
            final(self).source_table() == old(self).source_table(),
            final(self).limit_view() == old(self).limit_view(),
            final(self).depth() <= old(self).depth(),
            final(self).pushed_back() is None,
            match r {
                None => old(self).stream().len() == 0 && final(self).stream().len() == 0
                    && final(self).measure() == old(self).measure(),
                Some(c) => old(self).stream() == seq![c] + final(self).stream()
                    && final(self).measure() < old(self).measure(),
            },
    {
        if let Some(c) = self.pushback {
            self.pushback = None;
            assert(old(self).stream() =~= seq![c] + self.stream());
            return Some(c);
        }
        let ghost orig = self.reader_stack@;
        let ghost d0 = self.work_digits();
        assert(d0.len() == stack_levels() + 1);
        let ghost b = self.limit as nat + 2;
        let mut popped: Vec<ResumableChars> = Vec::new();
        loop
            invariant
                self.wf(),
                self.pushback is None,
                old(self).pushback is None,
                old(self).wf(),
                self.sources == old(self).sources,
                self.limit == old(self).limit,
                self.reader == old(self).reader,
                self.lexemes == old(self).lexemes,
                b == self.limit as nat + 2,
                orig == old(self).reader_stack@,
                self.reader_stack@.len() + popped@.len() == orig.len(),
                forall|j: int| 0 <= j < self.reader_stack@.len() ==> self.reader_stack@[j] == orig[j],
                forall|j: int|
                    0 <= j < popped@.len() ==> popped@[j] == orig[orig.len() - 1 - j],
                forall|j: int| 0 <= j < popped@.len() ==> (#[trigger] popped@[j]).rest().len() == 0,
                stack_rest(orig) == stack_rest(self.reader_stack@),
                d0 == old(self).work_digits(),
                d0.len() == stack_levels() + 1,
            decreases self.reader_stack@.len(),
        {
            let n = self.reader_stack.len();
            if n == 0 {
                let r = self.reader.next();
                proof {
                    if let Some(c) = r {
                        let x = self.work_digits();
                        assert(x.len() == stack_levels() + 1);
                        assert(x[0] < d0[0]);
                        assert forall|j: int| 0 < j < x.len() implies x[j] < b by {}
                    }
                }
                self.restore(&mut popped, Ghost(orig));
                proof {
                    assert(self.reader_stack@ =~= orig);
                    if let Some(c) = r {
                        let x = self.work_digits();
                        assert(x.len() == stack_levels() + 1);
                        assert(self.reader_stack@ =~= orig);
                        assert(x[0] < d0[0]);
                        assert forall|j: int| 0 < j < x.len() implies x[j] == d0[j] by {}
                        assert forall|j: int| 0 < j < x.len() implies x[j] < b by {
                            if j <= self.reader_stack@.len() {
                                assert(old(self).reader_stack@[j - 1].wf());
                                assert(old(self).reader_stack@[j - 1].size() <= self.limit);
                            }
                        }
                        lemma_digits_lex(x, d0, 0, b);
                    } else {
                        assert(self.reader_stack@ =~= orig);
                        assert(self.work_digits() =~= d0);
                    }
                    assert(self.stream() =~= pushed(self.pushback) + stack_rest(orig)
                        + self.reader.rest());
                }
                return r;
            }
            let ghost before_pop = self.reader_stack@;
            let top0 = self.reader_stack.pop();
            let mut top = match top0 {
                Some(t) => t,
                None => { return None; },
            };
            let ghost below = self.reader_stack@;
            proof {
                assert(self.reader_stack@.len() + 1 == n);
                assert(top == orig[n - 1]);
                assert(before_pop =~= below.push(top));
                assert(below.push(top).drop_last() =~= below);
            }
            let ghost old_top = top;
            match top.next() {
                Some(c) => {
                    self.reader_stack.push(top);
                    proof {
                        assert(self.reader_stack@.drop_last() =~= below);
                        assert(stack_rest(self.reader_stack@) == top.rest() + stack_rest(below));
                        assert(stack_rest(before_pop) == old_top.rest() + stack_rest(below));
                    }
                    proof {
                        let x = self.work_digits();
                        assert(x.len() == stack_levels() + 1);
                        assert(self.reader_stack@.drop_last() =~= below);
                        assert forall|j: int| 0 <= j < n implies x[j] == d0[j] by {
                            if j > 0 {
                                assert(self.reader_stack@[j - 1] == orig[j - 1]);
                            }
                        }
                        assert(x[n as int] < d0[n as int]);
                        assert forall|j: int| n < j < x.len() implies x[j] < b by {}
                        lemma_digits_lex(x, d0, n as int, b);
                        assert(old(self).stream() =~= seq![c] + self.stream());
                    }
                    return Some(c);
                },
                None => {
                    popped.push(top);
                },
            }
        }
    }

    /// Puts back, in order, the exhausted readers that `next_char` took off
    /// the stack.
    fn restore(&mut self, popped: &mut Vec<ResumableChars>, Ghost(orig): Ghost<Seq<ResumableChars>>)
        requires
            old(self).reader_stack@.len() + old(popped)@.len() == orig.len(),
            forall|j: int|
                0 <= j < old(self).reader_stack@.len() ==> old(self).reader_stack@[j] == orig[j],
            forall|j: int|
                0 <= j < old(popped)@.len() ==> old(popped)@[j] == orig[orig.len() - 1 - j],
        ensures
            final(self).reader_stack@ == orig,
            final(self).reader == old(self).reader,
            final(self).pushback == old(self).pushback,
            final(self).sources == old(self).sources,
            final(self).limit == old(self).limit,
            final(self).lexemes == old(self).lexemes,
    {
        while popped.len() > 0
            invariant
                self.reader_stack@.len() + popped@.len() == orig.len(),
                forall|j: int| 0 <= j < self.reader_stack@.len() ==> self.reader_stack@[j] == orig[j],
                forall|j: int|
                    0 <= j < popped@.len() ==> popped@[j] == orig[orig.len() - 1 - j],
                self.reader == old(self).reader,
                self.pushback == old(self).pushback,
                self.sources == old(self).sources,
                self.limit == old(self).limit,
                self.lexemes == old(self).lexemes,
            decreases popped@.len(),
        {
            let r = popped.pop();
            if let Some(r) = r {
                self.reader_stack.push(r);
            }
        }
        assert(self.reader_stack@ =~= orig);
    }
}

} // verus!
