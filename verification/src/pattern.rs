//! The syntax of patterns: what `Regex::new` builds from a pattern, or why
//! it refuses it.
use vstd::prelude::*;

use crate::regex_rep::RegexRep;
use crate::regex_step::StepView;
use crate::regex_val::ValView;
use crate::text::{split_on, usize_text};

verus! {

/// Why a pattern is refused.
#[derive(Debug, Clone, Copy)]
pub enum ParseFault {
    /// `^` after another step.
    CaretNotAtStart,
    /// `$` followed by something.
    DollarNotAtEnd,
    /// A character with no meaning in a pattern.
    UnexpectedChar,
    /// `+` with no step before it.
    PlusWithoutTarget,
    /// `*` with no step before it.
    StarWithoutTarget,
    /// `?` with no step before it.
    QuestionWithoutTarget,
    /// `\` at the end of the pattern.
    TrailingBackslash,
    /// `{n}` where `n` is not a number.
    BraceNumber,
    /// `{n,m}` where `n` is not a number.
    BraceMin,
    /// `{n,m}` where `m` is not a number.
    BraceMax,
    /// `{n,m}` with `n > m`.
    BraceOrder,
    /// Braces with more than one comma.
    BraceFormat,
    /// `{..}` with no step before it.
    BraceWithoutTarget,
    /// A bracket range whose first character has low byte 0xFF: the byte
    /// arithmetic of the range overflows.
    RangeOverflow,
}

/// The message that `Regex::new` and `Regex::contenido_llaves` give for a fault.
pub open spec fn fault_message(f: ParseFault) -> Seq<char> {
    match f {
        ParseFault::CaretNotAtStart => "El caracter '^' no está al inicio de la regex"@,
        ParseFault::DollarNotAtEnd => "El caracter '$' no está al final de la regex"@,
        ParseFault::UnexpectedChar => "Se encontró un caracter insesperado"@,
        ParseFault::PlusWithoutTarget => "Se encontró un caracter '+' insesperado"@,
        ParseFault::StarWithoutTarget => "Se encontró un caracter '*' insesperado"@,
        ParseFault::QuestionWithoutTarget => "Se encontró un caracter '?' insesperado"@,
        ParseFault::TrailingBackslash => "Se encontró un caracter '\\' insesperado"@,
        ParseFault::BraceNumber => "No se pudo parsear el número"@,
        ParseFault::BraceMin => "No se pudo parsear el número mínimo"@,
        ParseFault::BraceMax => "No se pudo parsear el número máximo"@,
        ParseFault::BraceOrder => "El rango mínimo no puede ser mayor al rango máximo"@,
        ParseFault::BraceFormat => "Formato de llaves inválido"@,
        ParseFault::BraceWithoutTarget => "Se encontró un caracter '{' insesperado"@,
        ParseFault::RangeOverflow => ""@,
    }
}

/// A step that matches `val` once.
pub open spec fn single(val: ValView) -> StepView {
    StepView { val, rep: RegexRep::Exact(1) }
}

/// The steps with the repetition of the last one replaced by `rep`.
pub open spec fn set_last_rep(steps: Seq<StepView>, rep: RegexRep) -> Seq<StepView> {
    steps.update(steps.len() - 1, StepView { rep, ..steps.last() })
}

/// Characters that stand for themselves: ASCII letters, digits and the space.
pub open spec fn plain_char(c: char) -> bool {
    ||| ('a' <= c && c <= 'z')
    ||| ('A' <= c && c <= 'Z')
    ||| ('0' <= c && c <= '9')
    ||| c == ' '
}

// ---------------------------------------------------------------------------
// Braces
// ---------------------------------------------------------------------------

/// Position of the first `}` at or after `from`, or the end of `p`.
pub open spec fn brace_close(p: Seq<char>, from: int) -> int
    decreases p.len() - from,
{
    if from >= p.len() || from < 0 {
        p.len() as int
    } else if p[from] == '}' {
        from
    } else {
        brace_close(p, from + 1)
    }
}

/// The bounds written inside braces: `{n}` (at least `n`), `{n,}`, `{,m}`, `{n,m}`.
pub open spec fn brace_bounds(content: Seq<char>) -> Result<(Option<usize>, Option<usize>), ParseFault> {
    let parts = split_on(content, ',');
    if parts.len() == 1 {
        match usize_text(parts[0]) {
            Some(n) => Ok((Some(n), None)),
            None => Err(ParseFault::BraceNumber),
        }
    } else if parts.len() == 2 {
        let min = if parts[0].len() == 0 {
            Ok(None)
        } else {
            match usize_text(parts[0]) {
                Some(n) => Ok(Some(n)),
                None => Err(ParseFault::BraceMin),
            }
        };
        let max = if parts[1].len() == 0 {
            Ok(None)
        } else {
            match usize_text(parts[1]) {
                Some(n) => Ok(Some(n)),
                None => Err(ParseFault::BraceMax),
            }
        };
        match min {
            Err(f) => Err(f),
            Ok(mn) => match max {
                Err(f) => Err(f),
                Ok(mx) => if mn matches Some(a) && mx matches Some(b) && a > b {
                    Err(ParseFault::BraceOrder)
                } else {
                    Ok((mn, mx))
                },
            },
        }
    } else {
        Err(ParseFault::BraceFormat)
    }
}

// ---------------------------------------------------------------------------
// Brackets
// ---------------------------------------------------------------------------

/// What a bracket expression has read so far.
pub struct BracketState {
    /// Characters listed.
    pub chars: Seq<char>,
    /// The last character listed or closing a range.
    pub last: Option<char>,
    /// A `-` is waiting for the end of a range.
    pub range: bool,
    /// The name of the class being read.
    pub clase: Seq<char>,
    /// Inside `:...:`.
    pub es_clase: bool,
    /// A `[` was read, so the next `]` does not close the bracket.
    pub doble: bool,
    /// A leading `^` negates the bracket.
    pub negado: bool,
    /// Class steps produced so far.
    pub classes: Seq<StepView>,
}

/// The state at the opening `[`.
pub open spec fn bracket_start() -> BracketState {
    BracketState {
        chars: Seq::empty(),
        last: None,
        range: false,
        clase: Seq::empty(),
        es_clase: false,
        doble: false,
        negado: false,
        classes: Seq::empty(),
    }
}

/// The low byte of a character's code point (what `c as u8` keeps).
pub open spec fn low_byte(c: char) -> int {
    (c as u32 % 256) as int
}

/// The characters with code points `lo` to `hi`, in order (empty when `hi < lo`).
pub open spec fn byte_span(lo: int, hi: int) -> Seq<char> {
    Seq::new(
        if hi >= lo {
            (hi - lo + 1) as nat
        } else {
            0
        },
        |k: int| (lo + k) as char,
    )
}

/// Reading one character `c` inside a bracket (anything but a closing `]`).
pub open spec fn bracket_read(st: BracketState, c: char) -> Result<BracketState, ParseFault> {
    if c == ']' {
        Ok(BracketState { doble: false, ..st })
    } else if c == '^' && st.chars.len() == 0 && !st.es_clase {
        Ok(BracketState { negado: true, ..st })
    } else if c == '[' {
        Ok(BracketState { doble: true, ..st })
    } else if c == '-' {
        Ok(BracketState { range: true, ..st })
    } else if c == ':' {
        if st.es_clase {
            Ok(
                BracketState {
                    es_clase: false,
                    classes: st.classes.push(single(ValView::Clase(st.clase, st.negado))),
                    clase: Seq::empty(),
                    ..st
                },
            )
        } else {
            Ok(BracketState { es_clase: true, clase: Seq::empty(), ..st })
        }
    } else if st.es_clase {
        Ok(BracketState { clase: st.clase.push(c), ..st })
    } else if st.range {
        match st.last {
            Some(l) => if low_byte(l) == 255 {
                Err(ParseFault::RangeOverflow)
            } else {
                Ok(
                    BracketState {
                        chars: st.chars + byte_span(low_byte(l) + 1, low_byte(c)),
                        range: false,
                        last: Some(c),
                        ..st
                    },
                )
            },
            None => Ok(BracketState { range: false, last: Some(c), ..st }),
        }
    } else {
        Ok(BracketState { chars: st.chars.push(c), last: Some(c), ..st })
    }
}

/// Reads a bracket expression from position `pos` up to and including its
/// closing `]` (or to the end of `p`). Returns where reading stopped and the state.
pub open spec fn bracket_scan(p: Seq<char>, pos: int, st: BracketState) -> Result<
    (int, BracketState),
    ParseFault,
>
    decreases p.len() - pos,
{
    if pos >= p.len() || pos < 0 {
        Ok((pos, st))
    } else if p[pos] == ']' && !st.doble {
        Ok((pos + 1, st))
    } else {
        match bracket_read(st, p[pos]) {
            Err(f) => Err(f),
            Ok(st2) => bracket_scan(p, pos + 1, st2),
        }
    }
}

/// The steps a finished bracket expression adds: its classes, then the
/// listed characters when there are any.
pub open spec fn bracket_steps(st: BracketState) -> Seq<StepView> {
    if st.chars.len() > 0 {
        st.classes.push(single(ValView::Bracket(st.chars, st.negado)))
    } else {
        st.classes
    }
}

// ---------------------------------------------------------------------------
// Alternatives and whole patterns
// ---------------------------------------------------------------------------

/// Reads the alternative `p` from position `pos` with `steps` built so far.
pub open spec fn parse_part(p: Seq<char>, pos: int, steps: Seq<StepView>) -> Result<
    Seq<StepView>,
    ParseFault,
>
    decreases p.len() - pos,
{
    if pos >= p.len() || pos < 0 {
        Ok(steps)
    } else {
        let c = p[pos];
        if c == '^' {
            if steps.len() == 0 {
                parse_part(p, pos + 1, steps.push(single(ValView::Inicio)))
            } else {
                Err(ParseFault::CaretNotAtStart)
            }
        } else if c == '$' {
            if pos + 1 >= p.len() {
                parse_part(p, pos + 1, steps.push(single(ValView::Fin)))
            } else {
                Err(ParseFault::DollarNotAtEnd)
            }
        } else if c == '.' {
            parse_part(p, pos + 1, steps.push(single(ValView::Wildcard)))
        } else if plain_char(c) {
            parse_part(p, pos + 1, steps.push(single(ValView::Literal(c))))
        } else if c == '+' || c == '*' || c == '?' {
            if steps.len() == 0 {
                Err(
                    if c == '+' {
                        ParseFault::PlusWithoutTarget
                    } else if c == '*' {
                        ParseFault::StarWithoutTarget
                    } else {
                        ParseFault::QuestionWithoutTarget
                    },
                )
            } else {
                let rep = if c == '+' {
                    RegexRep::Range { min: Some(1), max: None }
                } else if c == '*' {
                    RegexRep::Range { min: Some(0), max: None }
                } else {
                    RegexRep::Range { min: Some(0), max: Some(1) }
                };
                parse_part(p, pos + 1, set_last_rep(steps, rep))
            }
        } else if c == '\\' {
            if pos + 1 < p.len() {
                parse_part(p, pos + 2, steps.push(single(ValView::Literal(p[pos + 1]))))
            } else {
                Err(ParseFault::TrailingBackslash)
            }
        } else if c == '{' {
            let close = brace_close(p, pos + 1);
            let next = if close < p.len() {
                close + 1
            } else {
                close
            };
            proof {
                lemma_brace_close(p, pos + 1);
            }
            match brace_bounds(p.subrange(pos + 1, close)) {
                Err(f) => Err(f),
                Ok((min, max)) => if steps.len() == 0 {
                    Err(ParseFault::BraceWithoutTarget)
                } else {
                    parse_part(p, next, set_last_rep(steps, RegexRep::Range { min, max }))
                },
            }
        } else if c == '[' {
            proof {
                lemma_bracket_scan_advances(p, pos + 1, bracket_start());
            }
            match bracket_scan(p, pos + 1, bracket_start()) {
                Err(f) => Err(f),
                Ok((next, st)) => parse_part(p, next, steps + bracket_steps(st)),
            }
        } else {
            Err(ParseFault::UnexpectedChar)
        }
    }
}

/// Reads the alternatives in order, stopping at the first fault.
pub open spec fn parse_parts(parts: Seq<Seq<char>>) -> Result<Seq<Seq<StepView>>, ParseFault>
    decreases parts.len(),
{
    if parts.len() == 0 {
        Ok(Seq::empty())
    } else {
        match parse_parts(parts.drop_last()) {
            Err(f) => Err(f),
            Ok(done) => match parse_part(parts.last(), 0, Seq::empty()) {
                Err(f) => Err(f),
                Ok(steps) => Ok(done.push(steps)),
            },
        }
    }
}

/// What a pattern means: the steps of each `|`-separated alternative, or the
/// first fault met.
pub open spec fn parse_pattern(pattern: Seq<char>) -> Result<Seq<Seq<StepView>>, ParseFault> {
    parse_parts(split_on(pattern, '|'))
}

// ---------------------------------------------------------------------------
// Lemmas
// ---------------------------------------------------------------------------

/// `brace_close` looks forward, never past the end.
pub proof fn lemma_brace_close(p: Seq<char>, from: int)
    requires
        0 <= from,
    ensures
        from <= brace_close(p, from) || brace_close(p, from) == p.len(),
        brace_close(p, from) <= p.len(),
        brace_close(p, from) < p.len() ==> p[brace_close(p, from)] == '}',
        forall|k: int| from <= k < brace_close(p, from) ==> p[k] != '}',
    decreases p.len() - from,
{
    if from < p.len() && p[from] != '}' {
        lemma_brace_close(p, from + 1);
    }
}

/// Reading a bracket moves forward and stays within `p`.
pub proof fn lemma_bracket_scan_advances(p: Seq<char>, pos: int, st: BracketState)
    requires
        0 <= pos,
    ensures
        bracket_scan(p, pos, st) matches Ok((next, _)) ==> pos <= next && (next <= p.len() || next
            == pos),
    decreases p.len() - pos,
{
    if pos < p.len() && !(p[pos] == ']' && !st.doble) {
        if let Ok(st2) = bracket_read(st, p[pos]) {
            lemma_bracket_scan_advances(p, pos + 1, st2);
        }
    }
}

} // verus!
