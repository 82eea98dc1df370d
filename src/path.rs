//! Path commands and their textual notation.
//!
//! The notation is a line-only subset of the SVG path language: the opcodes
//! `M m L l V v H h Z z`, each followed by decimal numbers separated by white
//! space or commas. A number is held in thousandths of a unit. Reading goes through three stages, each a function with an exact
//! specification: [`lex`] splits the text into tokens, [`group`] gathers tokens
//! into commands, and [`crate::codec`] interprets commands as polygons.

use vstd::prelude::*;

verus! {

/// The kind of a path command.
#[derive(Clone, Copy, Debug, PartialEq, Eq, Structural)]
pub enum CommandType {
    MoveToAbs,
    MoveToRel,
    LineToAbs,
    LineToRel,
    VertAbs,
    VertRel,
    HorizAbs,
    HorizRel,
    ClosePath,
}

/// Whether a command's parameters are offsets from the current point.
pub open spec fn relative(t: CommandType) -> bool {
    t == CommandType::MoveToRel || t == CommandType::LineToRel || t == CommandType::VertRel
        || t == CommandType::HorizRel
}

/// The command type an opcode letter names, if any.
pub open spec fn opcode_type(c: char) -> Option<CommandType> {
    if c == 'M' {
        Some(CommandType::MoveToAbs)
    } else if c == 'm' {
        Some(CommandType::MoveToRel)
    } else if c == 'L' {
        Some(CommandType::LineToAbs)
    } else if c == 'l' {
        Some(CommandType::LineToRel)
    } else if c == 'V' {
        Some(CommandType::VertAbs)
    } else if c == 'v' {
        Some(CommandType::VertRel)
    } else if c == 'H' {
        Some(CommandType::HorizAbs)
    } else if c == 'h' {
        Some(CommandType::HorizRel)
    } else if c == 'Z' || c == 'z' {
        Some(CommandType::ClosePath)
    } else {
        None
    }
}

/// The letter written for a command type.
pub open spec fn opcode_letter(t: CommandType) -> char {
    match t {
        CommandType::MoveToAbs => 'M',
        CommandType::MoveToRel => 'm',
        CommandType::LineToAbs => 'L',
        CommandType::LineToRel => 'l',
        CommandType::VertAbs => 'V',
        CommandType::VertRel => 'v',
        CommandType::HorizAbs => 'H',
        CommandType::HorizRel => 'h',
        CommandType::ClosePath => 'z',
    }
}

impl CommandType {
    pub fn is_relative(&self) -> (r: bool)
        ensures
            r == relative(*self),
    {
        match self {
            CommandType::MoveToRel | CommandType::LineToRel | CommandType::VertRel
            | CommandType::HorizRel => true,
            _ => false,
        }
    }

    /// The command type of an opcode letter; `None` for any other character.
    pub fn from_opcode(opcode: char) -> (r: Option<CommandType>)
        ensures
            r == opcode_type(opcode),
    {
        match opcode {
            'M' => Some(CommandType::MoveToAbs),
            'm' => Some(CommandType::MoveToRel),
            'L' => Some(CommandType::LineToAbs),
            'l' => Some(CommandType::LineToRel),
            'V' => Some(CommandType::VertAbs),
            'v' => Some(CommandType::VertRel),
            'H' => Some(CommandType::HorizAbs),
            'h' => Some(CommandType::HorizRel),
            'Z' | 'z' => Some(CommandType::ClosePath),
            _ => None,
        }
    }

    pub fn to_opcode(&self) -> (r: char)
        ensures
            r == opcode_letter(*self),
            opcode_type(r) == Some(*self),
    {
        match self {
            CommandType::MoveToAbs => 'M',
            CommandType::MoveToRel => 'm',
            CommandType::LineToAbs => 'L',
            CommandType::LineToRel => 'l',
            CommandType::VertAbs => 'V',
            CommandType::VertRel => 'v',
            CommandType::HorizAbs => 'H',
            CommandType::HorizRel => 'h',
            CommandType::ClosePath => 'z',
        }
    }
}

/// One command of a path: its kind and its numeric parameters.
#[derive(Debug)]
pub struct Command {
    pub cmd_type: CommandType,
    pub params: Vec<i32>,
}

/// The mathematical content of a command.
pub type CommandModel = (CommandType, Seq<i32>);

impl View for Command {
    type V = CommandModel;

    open spec fn view(&self) -> CommandModel {
        (self.cmd_type, self.params@)
    }
}

/// The models of a list of commands.
pub open spec fn commands_model(cs: Seq<Command>) -> Seq<CommandModel> {
    Seq::new(cs.len(), |i: int| cs[i]@)
}

/// The offset that [`Command::shift`] adds to the parameter at `i`: absolute
/// coordinates move with the translation, relative ones and closings do not.
pub open spec fn shift_offset(t: CommandType, len: int, i: int, x: int, y: int) -> int {
    match t {
        CommandType::MoveToAbs | CommandType::LineToAbs => {
            if i % 2 == 0 && i + 1 < len {
                x
            } else if i % 2 == 1 {
                y
            } else {
                0
            }
        },
        CommandType::VertAbs => y,
        CommandType::HorizAbs => x,
        _ => 0,
    }
}

impl Command {
    /// A command from its opcode letter; `None` when the letter is no opcode.
    pub fn new(cmd_type: char, params: Vec<i32>) -> (r: Option<Command>)
        ensures
            r is Some <==> opcode_type(cmd_type) is Some,
            r is Some ==> r->0.cmd_type == opcode_type(cmd_type)->0 && r->0.params@
                == params@,
    {
        match CommandType::from_opcode(cmd_type) {
            Some(t) => Some(Command { cmd_type: t, params }),
            None => None,
        }
    }

    pub fn is_relative(&self) -> (r: bool)
        ensures
            r == relative(self.cmd_type),
    {
        self.cmd_type.is_relative()
    }

    /// Translates the absolute coordinates among the parameters by `(x, y)`.
    pub fn shift(&mut self, x: i32, y: i32)
        requires
            forall|i: int|
                0 <= i < old(self).params.len() ==> i32::MIN <= #[trigger] old(self).params[i]
                    + shift_offset(old(self).cmd_type, old(self).params.len() as int, i, x as int, y as int)
                    <= i32::MAX,
        ensures
            final(self).cmd_type == old(self).cmd_type,
            final(self).params.len() == old(self).params.len(),
            forall|i: int|
                0 <= i < old(self).params.len() ==> #[trigger] final(self).params[i] == old(self).params[i]
                    + shift_offset(old(self).cmd_type, old(self).params.len() as int, i, x as int, y as int),
    {
        let len = self.params.len();
        let t = self.cmd_type;
        let mut i: usize = 0;
        while i < len
            invariant
                self.cmd_type == t,
                len == self.params.len(),
                len == old(self).params.len(),
                t == old(self).cmd_type,
                forall|j: int|
                    0 <= j < len ==> i32::MIN <= #[trigger] old(self).params[j] + shift_offset(t, len as int, j, x as int, y as int)
                        <= i32::MAX,
                forall|j: int|
                    0 <= j < i ==> #[trigger] self.params[j] == old(self).params[j] + shift_offset(t, len as int, j, x as int, y as int),
                forall|j: int| i <= j < len ==> #[trigger] self.params[j] == old(self).params[j],
            decreases len - i,
        {
            let d: i32 = match t {
                CommandType::MoveToAbs | CommandType::LineToAbs => {
                    if i % 2 == 0 && i + 1 < len {
                        x
                    } else if i % 2 == 1 {
                        y
                    } else {
                        0
                    }
                },
                CommandType::VertAbs => y,
                CommandType::HorizAbs => x,
                _ => 0,
            };
            let v = self.params[i] + d;
            self.params.set(i, v);
            i = i + 1;
        }
    }
}

/// A lexical unit of the path notation.
#[derive(Clone, Copy, Debug, PartialEq, Eq, Structural)]
pub enum Token {
    Op(CommandType),
    Num(i32),
}

/// Why a path text was refused.
#[derive(Clone, Copy, Debug, PartialEq, Eq, Structural)]
pub enum PathError {
    /// A character that is no opcode, digit, sign or separator.
    UnexpectedChar,
    /// A sign with no digit after it.
    MissingDigits,
    /// A number outside the range of `i32`.
    NumberOutOfRange,
    /// A number before the first opcode.
    MissingCommand,
    /// A command with a number of parameters that it cannot take.
    ParameterCount,
    /// A relative step that leaves the range of `i32`.
    CoordinateOutOfRange,
}

/// White space and commas separate tokens.
pub open spec fn is_separator(c: char) -> bool {
    c == ' ' || c == ',' || c == '\t' || c == '\n' || c == '\r'
}

/// The value of a decimal digit.
pub open spec fn digit_value(c: char) -> Option<int> {
    if c == '0' {
        Some(0)
    } else if c == '1' {
        Some(1)
    } else if c == '2' {
        Some(2)
    } else if c == '3' {
        Some(3)
    } else if c == '4' {
        Some(4)
    } else if c == '5' {
        Some(5)
    } else if c == '6' {
        Some(6)
    } else if c == '7' {
        Some(7)
    } else if c == '8' {
        Some(8)
    } else if c == '9' {
        Some(9)
    } else {
        None
    }
}

/// The length of the run of digits that `s` starts with.
pub open spec fn digit_run(s: Seq<char>) -> nat
    decreases s.len(),
{
    if s.len() > 0 && digit_value(s[0]) is Some {
        1 + digit_run(s.drop_first())
    } else {
        0
    }
}

/// The number that a sequence of digits spells in base ten.
pub open spec fn digits_value(ds: Seq<char>) -> int
    decreases ds.len(),
{
    if ds.len() == 0 {
        0
    } else {
        digits_value(ds.drop_last()) * 10 + match digit_value(ds.last()) {
            Some(d) => d,
            None => 0,
        }
    }
}

/// Starts a number: a sign or a digit.
pub open spec fn starts_number(c: char) -> bool {
    c == '-' || c == '+' || digit_value(c) is Some
}

/// Splits `s` into tokens, appending them to `acc`. A number is an optional
/// sign, the longest run of digits there, and optionally a point with the
/// digits after it; its token holds the value in thousandths.
pub open spec fn lex_from(s: Seq<char>, acc: Seq<Token>) -> Result<Seq<Token>, PathError>
    decreases s.len(),
{
    if s.len() == 0 {
        Ok(acc)
    } else if is_separator(s[0]) {
        lex_from(s.drop_first(), acc)
    } else if opcode_type(s[0]) is Some {
        lex_from(s.drop_first(), acc.push(Token::Op(opcode_type(s[0])->0)))
    } else if starts_number(s[0]) {
        match number_token(s) {
            Ok((v, len)) => if 1 <= len <= s.len() {
                lex_from(s.skip(len), acc.push(Token::Num(v)))
            } else {
                Err(PathError::MissingDigits)
            },
            Err(e) => Err(e),
        }
    } else {
        Err(PathError::UnexpectedChar)
    }
}

/// The number that `s` starts with, in thousandths, and how many characters
/// it takes: an optional sign, the longest run of digits there, and optionally
/// a point with the digits after it.
pub open spec fn number_token(s: Seq<char>) -> Result<(i32, int), PathError> {
    let sign_len: int = if s.len() > 0 && digit_value(s[0]) is Some {
        0
    } else {
        1
    };
    let body = s.skip(sign_len);
    let k = digit_run(body) as int;
    if k == 0 {
        Err(PathError::MissingDigits)
    } else {
        let after = body.skip(k);
        let has_point = after.len() > 0 && after[0] == '.';
        let f: int = if has_point {
            digit_run(after.drop_first()) as int
        } else {
            0
        };
        let frac = if has_point {
            after.drop_first().take(f)
        } else {
            seq![]
        };
        let len = sign_len + k + if has_point {
            1 + f
        } else {
            0
        };
        let m = digits_value(body.take(k)) * 1000 + thousandths(frac);
        let v = if s[0] == '-' {
            -m
        } else {
            m
        };
        if i32::MIN <= v <= i32::MAX {
            Ok((v as i32, len))
        } else {
            Err(PathError::NumberOutOfRange)
        }
    }
}

/// The digit at `i` of a fraction, or zero past its end.
pub open spec fn digit_or_zero(fs: Seq<char>, i: int) -> int {
    if 0 <= i < fs.len() {
        match digit_value(fs[i]) {
            Some(d) => d,
            None => 0,
        }
    } else {
        0
    }
}

/// A fraction's digits as thousandths: its first three digits, with zeros for
/// missing ones; later digits are dropped.
pub open spec fn thousandths(fs: Seq<char>) -> int {
    100 * digit_or_zero(fs, 0) + 10 * digit_or_zero(fs, 1) + digit_or_zero(fs, 2)
}

/// The tokens of a path text.
pub open spec fn lex(s: Seq<char>) -> Result<Seq<Token>, PathError> {
    lex_from(s, seq![])
}

proof fn lemma_digit_run_bound(s: Seq<char>)
    ensures
        digit_run(s) <= s.len(),
        forall|i: int| 0 <= i < digit_run(s) ==> digit_value(#[trigger] s[i]) is Some,
        digit_run(s) < s.len() ==> digit_value(s[digit_run(s) as int]) is None,
    decreases s.len(),
{
    if s.len() > 0 && digit_value(s[0]) is Some {
        lemma_digit_run_bound(s.drop_first());
        assert forall|i: int| 0 <= i < digit_run(s) implies digit_value(#[trigger] s[i]) is Some by {
            if i > 0 {
                assert(s[i] == s.drop_first()[i - 1]);
            }
        }
    }
}

/// A run of `k` digits followed by a non-digit, or by the end, has length `k`.
pub(crate) proof fn lemma_digit_run_exact(s: Seq<char>, k: int)
    requires
        0 <= k <= s.len(),
        forall|i: int| 0 <= i < k ==> digit_value(#[trigger] s[i]) is Some,
        k < s.len() ==> digit_value(s[k]) is None,
    ensures
        digit_run(s) == k,
    decreases k,
{
    if k > 0 {
        assert forall|i: int| 0 <= i < k - 1 implies digit_value(#[trigger] s.drop_first()[i]) is Some by {
            assert(s.drop_first()[i] == s[i + 1]);
        }
        if k < s.len() {
            assert(s.drop_first()[k - 1] == s[k]);
        }
        lemma_digit_run_exact(s.drop_first(), k - 1);
    } else {
        if s.len() > 0 {
            assert(digit_value(s[0]) is None);
        }
    }
}

proof fn lemma_digits_value_nonneg(ds: Seq<char>)
    ensures
        digits_value(ds) >= 0,
    decreases ds.len(),
{
    if ds.len() > 0 {
        lemma_digits_value_nonneg(ds.drop_last());
    }
}

/// Extending a run of digits does not make its value smaller.
proof fn lemma_digits_value_grows(ds: Seq<char>, m: int)
    requires
        0 <= m <= ds.len(),
    ensures
        digits_value(ds.take(m)) <= digits_value(ds),
    decreases ds.len(),
{
    if m < ds.len() {
        assert(ds.drop_last().take(m) =~= ds.take(m));
        lemma_digits_value_grows(ds.drop_last(), m);
        lemma_digits_value_nonneg(ds.drop_last());
        let d = digit_value(ds.last());
        assert(match d { Some(v) => v >= 0, None => true });
    } else {
        assert(ds.take(m) =~= ds);
    }
}

/// The value of a digit character.
pub fn digit_of(c: char) -> (r: Option<u8>)
    ensures
        r is Some <==> digit_value(c) is Some,
        r is Some ==> r->0 as int == digit_value(c)->0,
{
    match c {
        '0' => Some(0),
        '1' => Some(1),
        '2' => Some(2),
        '3' => Some(3),
        '4' => Some(4),
        '5' => Some(5),
        '6' => Some(6),
        '7' => Some(7),
        '8' => Some(8),
        '9' => Some(9),
        _ => None,
    }
}

fn is_separator_char(c: char) -> (r: bool)
    ensures
        r == is_separator(c),
{
    c == ' ' || c == ',' || c == '\t' || c == '\n' || c == '\r'
}

/// The characters of a string, in order.
pub fn chars_of(s: &str) -> (r: Vec<char>)
    ensures
        r@ == s@,
{
    let n = s.unicode_len();
    let mut r: Vec<char> = Vec::new();
    let mut i: usize = 0;
    while i < n
        invariant
            n == s@.len(),
            i <= n,
            r@ == s@.take(i as int),
        decreases n - i,
    {
        let c = s.get_char(i);
        r.push(c);
        i = i + 1;
        assert(r@ =~= s@.take(i as int));
    }
    assert(r@ =~= s@);
    r
}

/// Reads the run of digits from `start`: its value and where it ends; `None`
/// when the value exceeds 2147484, so that it cannot fit in thousandths.
fn read_digits(text: &Vec<char>, start: usize) -> (r: Option<(i64, usize)>)
    requires
        start <= text@.len(),
    ensures
        ({
            let body = text@.skip(start as int);
            let k = digit_run(body) as int;
            &&& k <= body.len()
            &&& match r {
                Some((v, j)) => j == start + k && v == digits_value(body.take(k)) && 0 <= v <= 2_147_484,
                None => digits_value(body.take(k)) > 2_147_484,
            }
        }),
{
    let n = text.len();
    let ghost body = text@.skip(start as int);
    proof {
        lemma_digit_run_bound(body);
    }
    let mut j: usize = start;
    let mut v: i64 = 0;
    assert(text@.subrange(start as int, start as int) =~= Seq::<char>::empty());
    while j < n && digit_of(text[j]).is_some()
        invariant
            n == text@.len(),
            start <= j <= n,
            body == text@.skip(start as int),
            digit_run(body) <= body.len(),
            forall|q: int| start <= q < j ==> digit_value(#[trigger] text@[q]) is Some,
            v == digits_value(text@.subrange(start as int, j as int)),
            0 <= v <= 2_147_484,
        decreases n - j,
    {
        let d = digit_of(text[j]).unwrap();
        let ghost sub = text@.subrange(start as int, j as int + 1);
        assert(sub.drop_last() =~= text@.subrange(start as int, j as int));
        assert(sub.last() == text@[j as int]);
        v = v * 10 + d as i64;
        if v > 2_147_484 {
            proof {
                let k = digit_run(body);
                assert forall|q: int| 0 <= q < j + 1 - start implies digit_value(
                    #[trigger] body[q],
                ) is Some by {
                    assert(body[q] == text@[start + q]);
                }
                lemma_digit_run_longer(body, j + 1 - start);
                assert(body.take(k as int).take(j + 1 - start) =~= sub);
                lemma_digits_value_grows(body.take(k as int), j + 1 - start);
            }
            return None;
        }
        j = j + 1;
    }
    proof {
        assert forall|q: int| 0 <= q < j - start implies digit_value(#[trigger] body[q]) is Some by {
            assert(body[q] == text@[start + q]);
        }
        if j < n {
            assert(body[j - start] == text@[j as int]);
        }
        lemma_digit_run_exact(body, j - start);
        assert(body.take(j - start) =~= text@.subrange(start as int, j as int));
    }
    Some((v, j))
}

/// Reads the digits of a fraction from `start`: their value in thousandths and
/// where they end.
fn read_fraction(text: &Vec<char>, start: usize) -> (r: (i64, usize))
    requires
        start <= text@.len(),
    ensures
        ({
            let tail = text@.skip(start as int);
            let f = digit_run(tail) as int;
            &&& r.1 == start + f
            &&& f <= tail.len()
            &&& r.0 == thousandths(tail.take(f))
            &&& 0 <= r.0 <= 999
        }),
{
    let n = text.len();
    let mut q: usize = start;
    let mut d0: i64 = 0;
    let mut d1: i64 = 0;
    let mut d2: i64 = 0;
    assert(text@.subrange(start as int, start as int) =~= Seq::<char>::empty());
    while q < n && digit_of(text[q]).is_some()
        invariant
            n == text@.len(),
            start <= q <= n,
            forall|r: int| start <= r < q ==> digit_value(#[trigger] text@[r]) is Some,
            d0 == digit_or_zero(text@.subrange(start as int, q as int), 0),
            d1 == digit_or_zero(text@.subrange(start as int, q as int), 1),
            d2 == digit_or_zero(text@.subrange(start as int, q as int), 2),
        decreases n - q,
    {
        let d = digit_of(text[q]).unwrap() as i64;
        let ghost old_sub = text@.subrange(start as int, q as int);
        let ghost new_sub = text@.subrange(start as int, q + 1);
        assert(new_sub[q - start] == text@[q as int]);
        assert forall|r: int| 0 <= r < q - start implies new_sub[r] == old_sub[r] by {}
        if q == start {
            d0 = d;
        } else if q == start + 1 {
            d1 = d;
        } else if q == start + 2 {
            d2 = d;
        }
        q = q + 1;
    }
    proof {
        let tail = text@.skip(start as int);
        assert forall|r: int| 0 <= r < q - start implies digit_value(#[trigger] tail[r]) is Some by {
            assert(tail[r] == text@[start + r]);
        }
        if q < n {
            assert(tail[q - start] == text@[q as int]);
        }
        lemma_digit_run_exact(tail, q - start);
        assert(tail.take(q - start) =~= text@.subrange(start as int, q as int));
        lemma_thousandths_bounds(text@.subrange(start as int, q as int));
    }
    (100 * d0 + 10 * d1 + d2, q)
}

/// Reads the number that starts at `i`: its value in thousandths, and where it
/// ends.
fn lex_number(text: &Vec<char>, i: usize) -> (r: Result<(i32, usize), PathError>)
    requires
        i < text@.len(),
        starts_number(text@[i as int]),
    ensures
        match number_token(text@.skip(i as int)) {
            Ok((v, len)) => 1 <= len <= text@.len() - i && r == Ok::<(i32, usize), PathError>(
                (v, (i + len) as usize),
            ),
            Err(e) => r == Err::<(i32, usize), PathError>(e),
        },
{
    let _n = text.len();
    let ghost s = text@.skip(i as int);
    let c = text[i];
    assert(s[0] == c);
    let neg = c == '-';
    let start: usize = if digit_of(c).is_some() {
        i
    } else {
        i + 1
    };
    let ghost body = text@.skip(start as int);
    assert(body =~= s.skip(start - i));
    let (v, j) = match read_digits(text, start) {
        Some(p) => p,
        None => {
            proof {
                let k = digit_run(body) as int;
                let after = body.skip(k);
                let frac = if after.len() > 0 && after[0] == '.' {
                    after.drop_first().take(digit_run(after.drop_first()) as int)
                } else {
                    seq![]
                };
                lemma_thousandths_bounds(frac);
            }
            return Err(PathError::NumberOutOfRange);
        },
    };
    if j == start {
        return Err(PathError::MissingDigits);
    }
    let ghost after = body.skip(j - start);
    assert(after =~= text@.skip(j as int));
    let mut end: usize = j;
    let mut frac_v: i64 = 0;
    if j < text.len() && text[j] == '.' {
        assert(after[0] == text@[j as int]);
        assert(after.drop_first() =~= text@.skip(j + 1));
        let (fv, e) = read_fraction(text, j + 1);
        frac_v = fv;
        end = e;
    } else {
        assert(thousandths(Seq::<char>::empty()) == 0);
    }
    let m: i64 = v * 1000 + frac_v;
    let value: i64 = if neg {
        -m
    } else {
        m
    };
    if value > 0x7fff_ffff || value < -0x8000_0000 {
        return Err(PathError::NumberOutOfRange);
    }
    Ok((value as i32, end))
}

/// Splits a path text into tokens.
pub fn lex_path(text: &Vec<char>) -> (r: Result<Vec<Token>, PathError>)
    ensures
        match r {
            Ok(ts) => lex(text@) == Ok::<Seq<Token>, PathError>(ts@),
            Err(e) => lex(text@) == Err::<Seq<Token>, PathError>(e),
        },
{
    let n = text.len();
    let mut toks: Vec<Token> = Vec::new();
    let mut i: usize = 0;
    assert(text@.skip(0) =~= text@);
    while i < n
        invariant
            n == text@.len(),
            i <= n,
            lex(text@) == lex_from(text@.skip(i as int), toks@),
        decreases n - i,
    {
        let ghost rest = text@.skip(i as int);
        let c = text[i];
        assert(rest[0] == c);
        if is_separator_char(c) {
            assert(rest.drop_first() =~= text@.skip(i + 1));
            i = i + 1;
        } else if let Some(t) = CommandType::from_opcode(c) {
            assert(rest.drop_first() =~= text@.skip(i + 1));
            toks.push(Token::Op(t));
            i = i + 1;
        } else if c == '-' || c == '+' || digit_of(c).is_some() {
            match lex_number(text, i) {
                Ok((value, j)) => {
                    assert(rest.skip(j - i) =~= text@.skip(j as int));
                    toks.push(Token::Num(value));
                    i = j;
                },
                Err(e) => {
                    return Err(e);
                },
            }
        } else {
            return Err(PathError::UnexpectedChar);
        }
    }
    assert(text@.skip(i as int) =~= Seq::<char>::empty());
    Ok(toks)
}

proof fn lemma_thousandths_bounds(fs: Seq<char>)
    ensures
        0 <= thousandths(fs) <= 999,
{
    assert(0 <= digit_or_zero(fs, 0) <= 9);
    assert(0 <= digit_or_zero(fs, 1) <= 9);
    assert(0 <= digit_or_zero(fs, 2) <= 9);
}

/// A run of at least `m` leading digits gives a digit run of at least `m`.
proof fn lemma_digit_run_longer(s: Seq<char>, m: int)
    requires
        0 <= m <= s.len(),
        forall|i: int| 0 <= i < m ==> digit_value(#[trigger] s[i]) is Some,
    ensures
        digit_run(s) >= m,
    decreases m,
{
    if m > 0 {
        assert forall|i: int| 0 <= i < m - 1 implies digit_value(#[trigger] s.drop_first()[i]) is Some by {
            assert(s.drop_first()[i] == s[i + 1]);
        }
        lemma_digit_run_longer(s.drop_first(), m - 1);
    }
}

/// Gathers tokens into commands, appending them to `acc`: an opcode opens a
/// command and each number joins the command opened last.
pub open spec fn group_from(ts: Seq<Token>, acc: Seq<CommandModel>) -> Result<
    Seq<CommandModel>,
    PathError,
>
    decreases ts.len(),
{
    if ts.len() == 0 {
        Ok(acc)
    } else {
        match ts[0] {
            Token::Op(t) => group_from(ts.drop_first(), acc.push((t, seq![]))),
            Token::Num(v) => {
                if acc.len() == 0 {
                    Err(PathError::MissingCommand)
                } else {
                    group_from(
                        ts.drop_first(),
                        acc.update(acc.len() - 1, (acc.last().0, acc.last().1.push(v))),
                    )
                }
            },
        }
    }
}

/// The commands that a token sequence spells.
pub open spec fn group(ts: Seq<Token>) -> Result<Seq<CommandModel>, PathError> {
    group_from(ts, seq![])
}

/// Gathers tokens into commands.
pub fn group_tokens(ts: &Vec<Token>) -> (r: Result<Vec<Command>, PathError>)
    ensures
        match r {
            Ok(cs) => group(ts@) == Ok::<Seq<CommandModel>, PathError>(commands_model(cs@)),
            Err(e) => group(ts@) == Err::<Seq<CommandModel>, PathError>(e),
        },
{
    let n = ts.len();
    let mut cmds: Vec<Command> = Vec::new();
    let mut open: Option<Command> = None;
    let mut i: usize = 0;
    assert(ts@.skip(0) =~= ts@);
    assert(commands_model(cmds@) =~= Seq::<CommandModel>::empty());
    while i < n
        invariant
            n == ts@.len(),
            i <= n,
            open is None ==> cmds@.len() == 0,
            group(ts@) == group_from(
                ts@.skip(i as int),
                match open {
                    Some(c) => commands_model(cmds@).push(c@),
                    None => commands_model(cmds@),
                },
            ),
        decreases n - i,
    {
        let ghost rest = ts@.skip(i as int);
        assert(rest[0] == ts@[i as int]);
        assert(rest.drop_first() =~= ts@.skip(i + 1));
        match ts[i] {
            Token::Op(t) => {
                match open {
                    Some(c) => {
                        let ghost before = commands_model(cmds@);
                        cmds.push(c);
                        assert(commands_model(cmds@) =~= before.push(c@));
                    },
                    None => {},
                }
                open = Some(Command { cmd_type: t, params: Vec::new() });
                assert(open->0@ =~= (t, Seq::<i32>::empty()));
            },
            Token::Num(v) => {
                match open {
                    Some(c) => {
                        let ghost acc = commands_model(cmds@).push(c@);
                        let mut c = c;
                        c.params.push(v);
                        assert(acc.update(acc.len() - 1, (acc.last().0, acc.last().1.push(v)))
                            =~= commands_model(cmds@).push(c@));
                        open = Some(c);
                    },
                    None => {
                        return Err(PathError::MissingCommand);
                    },
                }
            },
        }
        i = i + 1;
    }
    assert(ts@.skip(i as int) =~= Seq::<Token>::empty());
    match open {
        Some(c) => {
            let ghost before = commands_model(cmds@);
            cmds.push(c);
            assert(commands_model(cmds@) =~= before.push(c@));
        },
        None => {},
    }
    Ok(cmds)
}

} // verus!
