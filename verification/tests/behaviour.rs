use std::collections::VecDeque;

use tp_ind::evaluated_step::EvaluatedStep;
use tp_ind::regex::{backtrack, Regex};
use tp_ind::regex_rep::RegexRep;
use tp_ind::regex_step::RegexStep;
use tp_ind::regex_val::RegexVal;

fn literal(c: char) -> RegexStep {
    RegexStep {
        val: RegexVal::Literal(c),
        rep: RegexRep::Exact(1),
    }
}

fn literal_of(step: &RegexStep) -> Option<char> {
    match step.val {
        RegexVal::Literal(c) => Some(c),
        _ => None,
    }
}

#[test]
fn empty_line_never_matches() {
    for pattern in ["a*", "", "^", "$", ".*", "a|b*", "[[:space:]]*"] {
        let regex = Regex::new(pattern).unwrap();
        assert_eq!(regex.test(""), Ok(false), "pattern {:?}", pattern);
    }
}

#[test]
fn empty_pattern_matches_every_nonempty_line() {
    let regex = Regex::new("").unwrap();
    assert_eq!(regex.test("x"), Ok(true));
    assert_eq!(regex.test("hello world"), Ok(true));
    assert_eq!(regex.test(""), Ok(false));
}

#[test]
fn non_ascii_line_is_refused() {
    let regex = Regex::new("a").unwrap();
    assert_eq!(regex.test("año"), Err("El valor no es ASCII"));
    assert_eq!(Regex::new("").unwrap().test("é"), Err("El valor no es ASCII"));
}

#[test]
fn literal_pattern_is_substring_search() {
    let regex = Regex::new("hola").unwrap();
    assert_eq!(regex.test("dice hola mundo"), Ok(true));
    assert_eq!(regex.test("hola"), Ok(true));
    assert_eq!(regex.test("hol"), Ok(false));
    assert_eq!(regex.test("HOLA"), Ok(false));
    assert_eq!(regex.test("ho la"), Ok(false));
}

#[test]
fn caret_anchors_at_line_start() {
    let regex = Regex::new("^ab").unwrap();
    assert_eq!(regex.test("abc"), Ok(true));
    assert_eq!(regex.test("ab"), Ok(true));
    assert_eq!(regex.test("cab"), Ok(false));
}

#[test]
fn dollar_anchors_at_line_end() {
    let regex = Regex::new("ab$").unwrap();
    assert_eq!(regex.test("cab"), Ok(true));
    assert_eq!(regex.test("ab"), Ok(true));
    assert_eq!(regex.test("abab"), Ok(true));
    assert_eq!(regex.test("abc"), Ok(false));
}

#[test]
fn alternation_accepts_either_side() {
    let regex = Regex::new("xy|z").unwrap();
    assert_eq!(regex.test("z"), Ok(true));
    assert_eq!(regex.test("axyb"), Ok(true));
    assert_eq!(regex.test("x"), Ok(false));
}

#[test]
fn refused_patterns_give_their_message() {
    let cases = [
        ("b^", "El caracter '^' no está al inicio de la regex"),
        ("a$b", "El caracter '$' no está al final de la regex"),
        ("+a", "Se encontró un caracter '+' insesperado"),
        ("*a", "Se encontró un caracter '*' insesperado"),
        ("?a", "Se encontró un caracter '?' insesperado"),
        ("a\\", "Se encontró un caracter '\\' insesperado"),
        ("{2}", "Se encontró un caracter '{' insesperado"),
        ("a{x}", "No se pudo parsear el número"),
        ("a{x,2}", "No se pudo parsear el número mínimo"),
        ("a{2,x}", "No se pudo parsear el número máximo"),
        ("a{3,2}", "El rango mínimo no puede ser mayor al rango máximo"),
        ("a{1,2,3}", "Formato de llaves inválido"),
        ("a!", "Se encontró un caracter insesperado"),
        ("ok|b^", "El caracter '^' no está al inicio de la regex"),
    ];
    for (pattern, message) in cases {
        assert_eq!(Regex::new(pattern).err(), Some(message), "pattern {:?}", pattern);
    }
}

#[test]
fn brace_contents() {
    assert_eq!(Regex::contenido_llaves("2"), Ok((Some(2), None)));
    assert_eq!(Regex::contenido_llaves("2,"), Ok((Some(2), None)));
    assert_eq!(Regex::contenido_llaves(",3"), Ok((None, Some(3))));
    assert_eq!(Regex::contenido_llaves("2,4"), Ok((Some(2), Some(4))));
    assert_eq!(Regex::contenido_llaves(","), Ok((None, None)));
    assert_eq!(Regex::contenido_llaves("+5"), Ok((Some(5), None)));
    assert_eq!(Regex::contenido_llaves("007"), Ok((Some(7), None)));
    assert_eq!(Regex::contenido_llaves(""), Err("No se pudo parsear el número"));
    assert_eq!(Regex::contenido_llaves("-5"), Err("No se pudo parsear el número"));
    assert_eq!(Regex::contenido_llaves("+"), Err("No se pudo parsear el número"));
    assert_eq!(
        Regex::contenido_llaves("99999999999999999999999"),
        Err("No se pudo parsear el número")
    );
    assert_eq!(
        Regex::contenido_llaves("5,2"),
        Err("El rango mínimo no puede ser mayor al rango máximo")
    );
    assert_eq!(Regex::contenido_llaves(",,"), Err("Formato de llaves inválido"));
}

#[test]
fn single_values_consume_one_character() {
    assert_eq!(RegexVal::Literal('a').matches("abc"), 1);
    assert_eq!(RegexVal::Literal('a').matches("bc"), 0);
    assert_eq!(RegexVal::Literal('a').matches(""), 0);
    assert_eq!(RegexVal::Literal('é').matches("é!"), 2);
    assert_eq!(RegexVal::Wildcard.matches("é"), 2);
    assert_eq!(RegexVal::Wildcard.matches("€"), 3);
    assert_eq!(RegexVal::Wildcard.matches(""), 0);
    assert_eq!(RegexVal::Bracket(vec!['x', 'y'], false).matches("y"), 1);
    assert_eq!(RegexVal::Bracket(vec!['x', 'y'], true).matches("y"), 0);
    assert_eq!(RegexVal::Bracket(vec!['x', 'y'], true).matches("z"), 1);
    assert_eq!(RegexVal::Clase("digit".to_string(), false).matches("7"), 1);
    assert_eq!(RegexVal::Clase("digit".to_string(), false).matches("x"), 0);
    assert_eq!(RegexVal::Clase("alpha".to_string(), false).matches("é"), 2);
    assert_eq!(RegexVal::Clase("upper".to_string(), false).matches("Q"), 1);
    assert_eq!(RegexVal::Clase("lower".to_string(), false).matches("Q"), 0);
    assert_eq!(RegexVal::Clase("space".to_string(), false).matches(" "), 1);
    assert_eq!(RegexVal::Clase("alnum".to_string(), false).matches("!"), 0);
    assert_eq!(RegexVal::Clase("punct".to_string(), false).matches("!"), 1);
    assert_eq!(RegexVal::Clase("punct".to_string(), false).matches("a"), 0);
    assert_eq!(RegexVal::Clase("nope".to_string(), false).matches("a"), 0);
    assert_eq!(RegexVal::Clase("nope".to_string(), true).matches("a"), 1);
    assert_eq!(RegexVal::Inicio.matches("a"), 0);
    assert_eq!(RegexVal::Fin.matches("a"), 0);
}

#[test]
fn backtrack_gives_back_up_to_the_last_backtrackeable_entry() {
    let mut evaluated = vec![
        EvaluatedStep { step: literal('a'), match_size: 1, backtrackeable: false },
        EvaluatedStep { step: literal('b'), match_size: 1, backtrackeable: true },
        EvaluatedStep { step: literal('c'), match_size: 2, backtrackeable: false },
    ];
    let mut next = VecDeque::new();
    next.push_back(literal('d'));
    let given_back = backtrack(literal('x'), &mut evaluated, &mut next);
    assert_eq!(given_back, Some(3));
    assert_eq!(evaluated.len(), 1);
    assert_eq!(literal_of(&evaluated[0].step), Some('a'));
    let order: Vec<Option<char>> = next.iter().map(literal_of).collect();
    assert_eq!(order, vec![Some('c'), Some('x'), Some('d')]);
}

#[test]
fn backtrack_without_backtrackeable_entry_empties_the_stack() {
    let mut evaluated = vec![
        EvaluatedStep { step: literal('a'), match_size: 1, backtrackeable: false },
        EvaluatedStep { step: literal('b'), match_size: 1, backtrackeable: false },
    ];
    let mut next = VecDeque::new();
    next.push_back(literal('d'));
    assert_eq!(backtrack(literal('x'), &mut evaluated, &mut next), None);
    assert!(evaluated.is_empty());
    let order: Vec<Option<char>> = next.iter().map(literal_of).collect();
    assert_eq!(order, vec![Some('a'), Some('b'), Some('x'), Some('d')]);
}

#[test]
fn overflowing_byte_ranges_are_detected() {
    assert!(Regex::range_overflows("[ÿ-a]"));
    assert!(Regex::range_overflows("ok|x[ÿ-a]"));
    assert!(!Regex::range_overflows("[a-ÿ]"));
    assert!(!Regex::range_overflows("a"));
    assert!(!Regex::range_overflows("+|[ÿ-a]"));
}

#[test]
fn bracket_ranges_and_escapes() {
    let regex = Regex::new("[a-c]x").unwrap();
    assert_eq!(regex.test("bx"), Ok(true));
    assert_eq!(regex.test("dx"), Ok(false));
    let escaped = Regex::new("a\\.b").unwrap();
    assert_eq!(escaped.test("a.b"), Ok(true));
    assert_eq!(escaped.test("axb"), Ok(false));
    let negated = Regex::new("[^ab]").unwrap();
    assert_eq!(negated.test("ab"), Ok(false));
    assert_eq!(negated.test("abc"), Ok(true));
}

#[test]
fn classes_in_a_bracket_come_before_its_characters() {
    let regex = Regex::new("[[:digit:]x]").unwrap();
    assert_eq!(regex.test("1x"), Ok(true));
    assert_eq!(regex.test("x1"), Ok(false));
}

#[test]
fn single_brace_bound_means_at_least() {
    let regex = Regex::new("a{2}b").unwrap();
    assert_eq!(regex.test("aaab"), Ok(true));
    assert_eq!(regex.test("ab"), Ok(false));
}

#[test]
fn too_many_retries_stop_the_whole_test() {
    let regex = Regex::new("a{2}b").unwrap();
    assert_eq!(regex.test("ab aab"), Ok(false));
    assert_eq!(regex.test("aab ab"), Ok(true));
}

#[test]
fn giving_back_lets_a_later_step_match() {
    let regex = Regex::new("a+a").unwrap();
    assert_eq!(regex.test("a"), Ok(true));
    assert_eq!(regex.test("b"), Ok(false));
}

#[test]
fn single_character_steps_match_in_place() {
    let regex = Regex::new("a.[bc][[:digit:]]").unwrap();
    assert_eq!(regex.test("xxaZc7"), Ok(true));
    assert_eq!(regex.test("a-b0 tail"), Ok(true));
    assert_eq!(regex.test("aZd7"), Ok(false));
    assert_eq!(regex.test("aZcx"), Ok(false));
    assert_eq!(regex.test("aZc"), Ok(false));
    assert_eq!(regex.test("ab1 ab"), Ok(false));
}

#[test]
fn word_list_alternation_accepts_lines_with_any_word() {
    let regex = Regex::new("uno|dos|tres").unwrap();
    assert_eq!(regex.test("hay dos"), Ok(true));
    assert_eq!(regex.test("tresillo"), Ok(true));
    assert_eq!(regex.test("cuatro"), Ok(false));
    let with_empty = Regex::new("ab|").unwrap();
    assert_eq!(with_empty.test("x"), Ok(true));
}

#[test]
fn caret_and_dollar_match_the_whole_line() {
    let regex = Regex::new("^hola$").unwrap();
    assert_eq!(regex.test("hola"), Ok(true));
    assert_eq!(regex.test("hola!"), Ok(false));
    assert_eq!(regex.test(" hola"), Ok(false));
    let empty = Regex::new("^$").unwrap();
    assert_eq!(empty.test("a"), Ok(false));
}

#[test]
fn braces_around_numbers_read_as_those_numbers() {
    let n: usize = 1234;
    let m: usize = 56;
    assert_eq!(Regex::contenido_llaves(&n.to_string()), Ok((Some(n), None)));
    assert_eq!(Regex::contenido_llaves(&format!("{},", n)), Ok((Some(n), None)));
    assert_eq!(Regex::contenido_llaves(&format!(",{}", m)), Ok((None, Some(m))));
    assert_eq!(Regex::contenido_llaves(&format!("{},{}", m, n)), Ok((Some(m), Some(n))));
    assert_eq!(
        Regex::contenido_llaves(&format!("{},{}", n, m)),
        Err("El rango mínimo no puede ser mayor al rango máximo")
    );
    assert_eq!(
        Regex::contenido_llaves(&usize::MAX.to_string()),
        Ok((Some(usize::MAX), None))
    );
}

#[test]
fn refused_braces_leave_the_pattern_refused() {
    assert_eq!(Regex::new("{2}").err(), Some("Se encontró un caracter '{' insesperado"));
    assert_eq!(
        Regex::new("a{3,1}").err(),
        Some("El rango mínimo no puede ser mayor al rango máximo")
    );
}

#[test]
fn ascii_patterns_never_overflow() {
    assert!(!Regex::range_overflows("[a-z]x|[ -~]"));
    assert!(!Regex::range_overflows("[\u{7f}-a]"));
}

#[test]
fn keeping_matching_lines() {
    let regex = Regex::new("a.c").unwrap();
    let mut kept: Vec<String> = Vec::new();
    assert_eq!(regex.keep_if_matches("xabc".to_string(), &mut kept), Ok(()));
    assert_eq!(regex.keep_if_matches("ac".to_string(), &mut kept), Ok(()));
    assert_eq!(regex.keep_if_matches("a-c".to_string(), &mut kept), Ok(()));
    assert_eq!(
        regex.keep_if_matches("añc".to_string(), &mut kept),
        Err("El valor no es ASCII")
    );
    assert_eq!(kept, vec!["xabc".to_string(), "a-c".to_string()]);
}

#[test]
fn ascii_classes_are_the_usual_ones() {
    let alpha = Regex::new("[[:alpha:]]").unwrap();
    assert_eq!(alpha.test("123 q"), Ok(true));
    assert_eq!(alpha.test("123 ."), Ok(false));
    let space = Regex::new("a[[:space:]]b").unwrap();
    assert_eq!(space.test("a\tb"), Ok(true));
    assert_eq!(space.test("a_b"), Ok(false));
    let upper = Regex::new("[[:upper:]]").unwrap();
    assert_eq!(upper.test("abc"), Ok(false));
    assert_eq!(upper.test("aBc"), Ok(true));
}
