//! What single values accept, what bracket expressions and repetitions
//! mean, stated for all inputs.
use vstd::prelude::*;
use vstd::utf8::is_ascii_chars;

use crate::laws::{fits_at, law_single_character_steps_match_in_place, one_char_step};
use crate::evaluated_step::EvalView;
use crate::machine::{
    lemma_match_len_ascii, lemma_range_scan, machine_wf, pattern_accepts, range_scan, range_turn,
    MachineState, Turn,
};
use crate::pattern::{
    brace_bounds, brace_close, lemma_brace_close, set_last_rep,
    bracket_read, bracket_scan, bracket_start, bracket_steps, byte_span, low_byte, parse_part,
    parse_parts, parse_pattern, plain_char, single, BracketState, ParseFault,
};
use crate::machine::steps_accept;
use crate::regex_rep::RegexRep;
use crate::regex_step::StepView;
use crate::regex_val::{
    accepts_char, alphabetic, alphanumeric, lowercase, match_len, numeric, uppercase, utf8_width,
    whitespace, ValView,
};

verus! {

/// The wildcard accepts every character and consumes it whole; the pattern
/// `.` accepts exactly the non-empty lines.
pub proof fn law_wildcard_accepts_any_character(c: char, s: Seq<char>, v: Seq<char>)
    requires
        is_ascii_chars(v),
    ensures
        accepts_char(ValView::Wildcard, c),
        s.len() > 0 ==> match_len(ValView::Wildcard, s) == utf8_width(s[0]),
        parse_pattern(seq!['.']) == Ok::<Seq<Seq<StepView>>, ParseFault>(
            seq![seq![single(ValView::Wildcard)]],
        ),
        pattern_accepts(seq![seq![single(ValView::Wildcard)]], v) == (v.len() > 0),
{
    let p = seq!['.'];
    crate::laws::lemma_split_without_separator(p, '|');
    assert(crate::pattern::parse_part(p, 0, Seq::empty()) == Ok::<Seq<StepView>, ParseFault>(
        seq![single(ValView::Wildcard)],
    )) by {
        reveal_with_fuel(crate::pattern::parse_part, 2);
        assert(Seq::<StepView>::empty().push(single(ValView::Wildcard)) =~= seq![
            single(ValView::Wildcard),
        ]);
    }
    assert(seq![p].drop_last() =~= Seq::<Seq<char>>::empty());
    assert(crate::pattern::parse_parts(seq![p]) == Ok::<Seq<Seq<StepView>>, ParseFault>(
        Seq::<Seq<StepView>>::empty().push(seq![single(ValView::Wildcard)]),
    )) by {
        reveal_with_fuel(crate::pattern::parse_parts, 2);
    }
    assert(Seq::<Seq<StepView>>::empty().push(seq![single(ValView::Wildcard)]) =~= seq![
        seq![single(ValView::Wildcard)],
    ]);
    let steps = seq![single(ValView::Wildcard)];
    assert(one_char_step(steps[0]));
    law_single_character_steps_match_in_place(steps, v);
    if v.len() > 0 {
        assert(fits_at(steps, v, 0));
    }
    let alts = seq![steps];
    if pattern_accepts(alts, v) {
        let k = choose|k: int| 0 <= k < alts.len() && crate::machine::steps_accept(
            #[trigger] alts[k],
            v,
        );
        assert(k == 0);
    }
    if v.len() > 0 {
        assert(crate::machine::steps_accept(alts[0], v));
    }
}

/// The names of the classes, told apart.
proof fn lemma_class_names()
    ensures
        "alnum"@ != "alpha"@,
        "alnum"@ != "digit"@,
        "alnum"@ != "lower"@,
        "alnum"@ != "upper"@,
        "alnum"@ != "space"@,
        "alnum"@ != "punct"@,
        "alpha"@ != "digit"@,
        "alpha"@ != "lower"@,
        "alpha"@ != "upper"@,
        "alpha"@ != "space"@,
        "alpha"@ != "punct"@,
        "digit"@ != "lower"@,
        "digit"@ != "upper"@,
        "digit"@ != "space"@,
        "digit"@ != "punct"@,
        "lower"@ != "upper"@,
        "lower"@ != "space"@,
        "lower"@ != "punct"@,
        "upper"@ != "space"@,
        "upper"@ != "punct"@,
        "space"@ != "punct"@,
{
    reveal_strlit("alnum");
    reveal_strlit("alpha");
    reveal_strlit("digit");
    reveal_strlit("lower");
    reveal_strlit("upper");
    reveal_strlit("space");
    reveal_strlit("punct");
    assert("alnum"@[0] == 'a' && "alnum"@[2] == 'n');
    assert("alpha"@[0] == 'a' && "alpha"@[2] == 'p');
    assert("digit"@[0] == 'd');
    assert("lower"@[0] == 'l');
    assert("upper"@[0] == 'u');
    assert("space"@[0] == 's');
    assert("punct"@[0] == 'p');
}

/// On ASCII the named classes are the usual ones: `alpha` the letters
/// `a`-`z` and `A`-`Z`, `digit` the digits, `alnum` both, `lower` and
/// `upper` the two cases of letters, `space` tab to carriage return and the
/// space, `punct` the printable characters that are neither letters, digits
/// nor space. A negated class accepts exactly the other characters.
pub proof fn law_ascii_classes(c: char, negated: bool)
    requires
        c <= '\u{7f}',
    ensures
        accepts_char(ValView::Clase("alpha"@, false), c) == (('a' <= c && c <= 'z') || ('A' <= c
            && c <= 'Z')),
        accepts_char(ValView::Clase("digit"@, false), c) == ('0' <= c && c <= '9'),
        accepts_char(ValView::Clase("alnum"@, false), c) == (('a' <= c && c <= 'z') || ('A' <= c
            && c <= 'Z') || ('0' <= c && c <= '9')),
        accepts_char(ValView::Clase("lower"@, false), c) == ('a' <= c && c <= 'z'),
        accepts_char(ValView::Clase("upper"@, false), c) == ('A' <= c && c <= 'Z'),
        accepts_char(ValView::Clase("space"@, false), c) == (('\t' <= c && c <= '\r') || c
            == ' '),
        accepts_char(ValView::Clase("punct"@, false), c) == (' ' < c && c <= '~' && !('a' <= c
            && c <= 'z') && !('A' <= c && c <= 'Z') && !('0' <= c && c <= '9')),
        forall|name: Seq<char>|
            #[trigger] accepts_char(ValView::Clase(name, true), c) == !accepts_char(
                ValView::Clase(name, false),
                c,
            ),
{
    lemma_class_names();
}

/// Beyond ASCII each named class is the Unicode property that std tests:
/// `alpha` is `char::is_alphabetic`, `digit` `char::is_numeric`, `alnum`
/// `char::is_alphanumeric`, `lower` `char::is_lowercase`, `upper`
/// `char::is_uppercase`, `space` `char::is_whitespace`; `punct` holds of no
/// such character.
pub proof fn law_unicode_classes(c: char)
    requires
        c > '\u{7f}',
    ensures
        accepts_char(ValView::Clase("alpha"@, false), c) == alphabetic(c),
        accepts_char(ValView::Clase("digit"@, false), c) == numeric(c),
        accepts_char(ValView::Clase("alnum"@, false), c) == alphanumeric(c),
        accepts_char(ValView::Clase("lower"@, false), c) == lowercase(c),
        accepts_char(ValView::Clase("upper"@, false), c) == uppercase(c),
        accepts_char(ValView::Clase("space"@, false), c) == whitespace(c),
        !accepts_char(ValView::Clase("punct"@, false), c),
{
    lemma_class_names();
}

/// Greedy repetition bounded by `m` stops once `m` characters are taken,
/// or after one when `m` is zero.
proof fn lemma_range_scan_bound(
    val: ValView,
    value: Seq<char>,
    i: int,
    total: nat,
    m: usize,
    stack: Seq<EvalView>,
    step: StepView,
)
    requires
        is_ascii_chars(value),
        0 <= i <= value.len(),
        total < m || total == 0,
    ensures
        range_scan(val, value, i, total, Some(m), stack, step).1 <= if m == 0 {
            1
        } else {
            m as int
        },
    decreases value.len() - i,
{
    lemma_match_len_ascii(val, value, i);
    let sz = match_len(val, value.skip(i));
    if sz != 0 && total + sz < m {
        let stack2 = stack.push(EvalView { step, match_size: sz, backtrackeable: true });
        lemma_range_scan_bound(val, value, i + sz, total + sz, m, stack2, step);
    }
}

/// A repetition with an upper bound `m` takes at most `m` characters of an
/// ASCII line, whether or not it has a lower bound (at most one when `m` is
/// zero): whatever the turn does next, the run does not stand further than
/// that past where the repetition started.
pub proof fn law_upper_bound_limits_repetitions(
    value: Seq<char>,
    st: MachineState,
    step: StepView,
    rest: Seq<StepView>,
    min: Option<usize>,
    m: usize,
)
    requires
        machine_wf(value, st),
    ensures
        range_turn(value, st, step, rest, min, Some(m)) matches Turn::Continue(nx) ==> nx.index
            <= st.index + if m == 0 {
            1
        } else {
            m as int
        },
{
    lemma_range_scan(step.val, value, st.index, 0, Some(m), st.stack, step);
    lemma_range_scan_bound(step.val, value, st.index, 0, m, st.stack, step);
}

/// The character list of the bracket `[l-h]`.
spec fn range_chars(l: char, h: char) -> Seq<char> {
    seq![l] + byte_span(low_byte(l) + 1, low_byte(h))
}

/// Reading `[l-h]`: one step, a bracket listing `l` and the range after it.
proof fn lemma_parse_bracket_range(l: char, h: char)
    requires
        plain_char(l),
        plain_char(h),
    ensures
        parse_pattern(seq!['[', l, '-', h, ']']) == Ok::<Seq<Seq<StepView>>, ParseFault>(
            seq![seq![single(ValView::Bracket(range_chars(l, h), false))]],
        ),
{
    let p = seq!['[', l, '-', h, ']'];
    assert forall|k: int| 0 <= k < p.len() implies p[k] != '|' by {
        assert(p[1] == l);
        assert(p[3] == h);
    }
    crate::laws::lemma_split_without_separator(p, '|');
    let st0 = bracket_start();
    let st1 = BracketState { chars: seq![l], last: Some(l), ..st0 };
    assert(st0.chars.push(l) =~= seq![l]);
    assert(bracket_read(st0, l) == Ok::<BracketState, ParseFault>(st1));
    let st2 = BracketState { range: true, ..st1 };
    assert(bracket_read(st1, '-') == Ok::<BracketState, ParseFault>(st2));
    assert((l as u32) < 128);
    assert(low_byte(l) == l as u32);
    let st3 = BracketState {
        chars: range_chars(l, h),
        range: false,
        last: Some(h),
        ..st2
    };
    assert(bracket_read(st2, h) == Ok::<BracketState, ParseFault>(st3));
    assert(p[1] == l && p[2] == '-' && p[3] == h && p[4] == ']');
    assert(bracket_scan(p, 1, st0) == Ok::<(int, BracketState), ParseFault>((5, st3))) by {
        reveal_with_fuel(bracket_scan, 5);
    }
    let steps = seq![single(ValView::Bracket(range_chars(l, h), false))];
    assert(bracket_steps(st3) =~= steps);
    assert(Seq::<StepView>::empty() + steps =~= steps);
    crate::pattern::lemma_bracket_scan_advances(p, 1, st0);
    assert(parse_part(p, 0, Seq::empty()) == Ok::<Seq<StepView>, ParseFault>(steps)) by {
        reveal_with_fuel(parse_part, 2);
    }
    assert(seq![p].drop_last() =~= Seq::<Seq<char>>::empty());
    assert(parse_parts(seq![p]) == Ok::<Seq<Seq<StepView>>, ParseFault>(
        Seq::<Seq<StepView>>::empty().push(steps),
    )) by {
        reveal_with_fuel(parse_parts, 2);
    }
    assert(Seq::<Seq<StepView>>::empty().push(steps) =~= seq![steps]);
}

/// The bracket `[l-h]` lists exactly the characters from `l` to `h`.
proof fn lemma_range_chars(l: char, h: char, c: char)
    requires
        plain_char(l),
        plain_char(h),
        l <= h,
    ensures
        range_chars(l, h).contains(c) == (l <= c && c <= h),
{
    let cs = range_chars(l, h);
    let lo = l as u32 as int;
    let hi = h as u32 as int;
    assert(lo < 128 && hi < 128);
    assert(low_byte(l) == lo);
    assert(low_byte(h) == hi);
    let span = byte_span(lo + 1, hi);
    if l <= c && c <= h {
        if c == l {
            assert(cs[0] == c);
        } else {
            let k = c as u32 - (lo + 1);
            assert(0 <= k < span.len());
            assert(span[k] == ((c as u32) as int) as char);
            assert(cs[1 + k] == span[k]);
        }
    }
    if cs.contains(c) {
        let j = choose|j: int| 0 <= j < cs.len() && cs[j] == c;
        if j > 0 {
            assert(cs[j] == span[j - 1]);
            assert(span[j - 1] == (lo + 1 + (j - 1)) as char);
            assert(((lo + j) as char) as u32 == lo + j);
            assert(c as u32 == lo + j);
            assert(lo + j <= hi);
            assert(l <= c);
            assert(c <= h);
        } else {
            assert(c == l);
        }
    }
}

/// A bracket `[l-h]` of letters, digits or spaces, with `l` not after `h`, is
/// one step that accepts exactly the characters from `l` to `h`, both ends
/// included; so it accepts exactly the lines holding such a character, and
/// in particular the line made of `h` alone.
pub proof fn law_bracket_range_includes_both_ends(l: char, h: char, c: char, v: Seq<char>)
    requires
        plain_char(l),
        plain_char(h),
        l <= h,
        is_ascii_chars(v),
    ensures
        parse_pattern(seq!['[', l, '-', h, ']']) matches Ok(alts) && alts.len() == 1
            && alts[0].len() == 1 && alts[0][0].rep == RegexRep::Exact(1) && accepts_char(
            alts[0][0].val,
            c,
        ) == (l <= c && c <= h) && pattern_accepts(alts, v) == (exists|i: int|
            0 <= i < v.len() && l <= #[trigger] v[i] && v[i] <= h) && pattern_accepts(
            alts,
            seq![h],
        ),
{
    lemma_parse_bracket_range(l, h);
    lemma_range_chars(l, h, c);
    let steps = seq![single(ValView::Bracket(range_chars(l, h), false))];
    let alts = seq![steps];
    assert(one_char_step(steps[0]));
    assert forall|w: Seq<char>| is_ascii_chars(w) implies #[trigger] pattern_accepts(alts, w) == (
    exists|i: int| 0 <= i < w.len() && l <= #[trigger] w[i] && w[i] <= h) by {
        law_single_character_steps_match_in_place(steps, w);
        if pattern_accepts(alts, w) {
            let k = choose|k: int| 0 <= k < alts.len() && steps_accept(#[trigger] alts[k], w);
            assert(k == 0);
            let i = choose|i: int| #[trigger] fits_at(steps, w, i);
            lemma_range_chars(l, h, w[i]);
            assert(accepts_char(steps[0].val, w[i + 0]));
        }
        if exists|i: int| 0 <= i < w.len() && l <= #[trigger] w[i] && w[i] <= h {
            let i = choose|i: int| 0 <= i < w.len() && l <= #[trigger] w[i] && w[i] <= h;
            lemma_range_chars(l, h, w[i]);
            assert(w[i + 0] == w[i]);
            assert(fits_at(steps, w, i));
            assert(steps_accept(alts[0], w));
        }
    }
    let hv = seq![h];
    assert(hv[0] == h);
    assert((h as u32) < 128);
    assert(is_ascii_chars(hv));
    assert(pattern_accepts(alts, hv) == (exists|i: int|
        0 <= i < hv.len() && l <= #[trigger] hv[i] && hv[i] <= h));
    assert(l <= hv[0] && hv[0] <= h);
}

/// The text of the bracket naming the class `name`: `[[:name:]]`, or
/// `[^[:name:]]` when negated.
pub open spec fn class_bracket(name: Seq<char>, negated: bool) -> Seq<char> {
    (if negated {
        seq!['[', '^']
    } else {
        seq!['[']
    }) + seq!['[', ':'] + name + seq![':', ']', ']']
}

/// Reading the letters of a class name, one after the other.
proof fn lemma_scan_class_name(p: Seq<char>, start: int, name: Seq<char>, j: int, st: BracketState)
    requires
        0 <= start,
        start + name.len() <= p.len(),
        p.subrange(start, start + name.len()) == name,
        forall|k: int| 0 <= k < name.len() ==> plain_char(#[trigger] name[k]),
        0 <= j <= name.len(),
        st.es_clase,
        st.clase == name.take(j),
    ensures
        bracket_scan(p, start + j, st) == bracket_scan(
            p,
            start + name.len(),
            BracketState { clase: name, ..st },
        ),
    decreases name.len() - j,
{
    if j == name.len() {
        assert(name.take(j) =~= name);
    } else {
        let c = name[j];
        assert(plain_char(name[j]));
        assert(p[start + j] == p.subrange(start, start + name.len())[j]);
        let st2 = BracketState { clase: name.take(j + 1), ..st };
        assert(st.clase.push(c) =~= name.take(j + 1));
        assert(bracket_read(st, c) == Ok::<BracketState, ParseFault>(st2));
        lemma_scan_class_name(p, start, name, j + 1, st2);
    }
}

/// Reading `[[:name:]]` or `[^[:name:]]`: one step, the class `name`,
/// negated exactly when the bracket begins with `^`.
#[verifier::spinoff_prover]
#[verifier::rlimit(50)]
proof fn lemma_parse_class_bracket(name: Seq<char>, negated: bool)
    requires
        forall|k: int| 0 <= k < name.len() ==> plain_char(#[trigger] name[k]),
    ensures
        parse_pattern(class_bracket(name, negated)) == Ok::<Seq<Seq<StepView>>, ParseFault>(
            seq![seq![single(ValView::Clase(name, negated))]],
        ),
{
    let p = class_bracket(name, negated);
    let off: int = if negated {
        2
    } else {
        1
    };
    let nstart = off + 2;
    let n = name.len() as int;
    assert(p.len() == nstart + n + 3);
    assert forall|k: int| nstart <= k < nstart + n implies p[k] == name[k - nstart] by {}
    assert(p.subrange(nstart, nstart + n) =~= name);
    assert forall|k: int| 0 <= k < p.len() implies p[k] != '|' by {
        if nstart <= k < nstart + n {
            assert(plain_char(name[k - nstart]));
        }
    }
    crate::laws::lemma_split_without_separator(p, '|');
    let st0 = BracketState { negado: negated, ..bracket_start() };
    if negated {
        assert(p[1] == '^');
        assert(bracket_read(bracket_start(), '^') == Ok::<BracketState, ParseFault>(st0));
        assert(bracket_scan(p, 1, bracket_start()) == bracket_scan(p, 2, st0));
    } else {
        assert(st0 == bracket_start());
    }
    assert(bracket_scan(p, 1, bracket_start()) == bracket_scan(p, off, st0));
    let st1 = BracketState { doble: true, ..st0 };
    let st2 = BracketState { es_clase: true, clase: Seq::empty(), ..st1 };
    assert(p[off] == '[' && p[off + 1] == ':');
    assert(bracket_scan(p, off, st0) == bracket_scan(p, nstart, st2)) by {
        reveal_with_fuel(bracket_scan, 3);
    }
    assert(name.take(0) =~= Seq::<char>::empty());
    lemma_scan_class_name(p, nstart, name, 0, st2);
    let st3 = BracketState { clase: name, ..st2 };
    let st4 = BracketState {
        es_clase: false,
        classes: seq![single(ValView::Clase(name, negated))],
        clase: Seq::empty(),
        ..st3
    };
    assert(Seq::<StepView>::empty().push(single(ValView::Clase(name, negated))) =~= st4.classes);
    let st5 = BracketState { doble: false, ..st4 };
    assert(p[nstart + n] == ':' && p[nstart + n + 1] == ']' && p[nstart + n + 2] == ']');
    assert(bracket_scan(p, nstart + n, st3) == Ok::<(int, BracketState), ParseFault>(
        (nstart + n + 3, st5),
    )) by {
        reveal_with_fuel(bracket_scan, 4);
    }
    let steps = seq![single(ValView::Clase(name, negated))];
    assert(bracket_steps(st5) =~= steps);
    assert(Seq::<StepView>::empty() + steps =~= steps);
    crate::pattern::lemma_bracket_scan_advances(p, 1, bracket_start());
    assert(parse_part(p, 0, Seq::empty()) == Ok::<Seq<StepView>, ParseFault>(steps)) by {
        reveal_with_fuel(parse_part, 2);
    }
    assert(seq![p].drop_last() =~= Seq::<Seq<char>>::empty());
    assert(parse_parts(seq![p]) == Ok::<Seq<Seq<StepView>>, ParseFault>(
        Seq::<Seq<StepView>>::empty().push(steps),
    )) by {
        reveal_with_fuel(parse_parts, 2);
    }
    assert(Seq::<Seq<StepView>>::empty().push(steps) =~= seq![steps]);
}

/// One single-character step accepts an ASCII line exactly when it accepts
/// one of its characters.
proof fn lemma_one_step_accepts(val: ValView, v: Seq<char>)
    requires
        !(val is Inicio),
        !(val is Fin),
        is_ascii_chars(v),
    ensures
        pattern_accepts(seq![seq![single(val)]], v) == exists|i: int|
            0 <= i < v.len() && accepts_char(val, #[trigger] v[i]),
{
    let steps = seq![single(val)];
    let alts = seq![steps];
    assert(one_char_step(steps[0]));
    law_single_character_steps_match_in_place(steps, v);
    if pattern_accepts(alts, v) {
        let k = choose|k: int| 0 <= k < alts.len() && steps_accept(#[trigger] alts[k], v);
        assert(k == 0);
        let i = choose|i: int| #[trigger] fits_at(steps, v, i);
        assert(accepts_char(steps[0].val, v[i + 0]));
    }
    if exists|i: int| 0 <= i < v.len() && accepts_char(val, #[trigger] v[i]) {
        let i = choose|i: int| 0 <= i < v.len() && accepts_char(val, #[trigger] v[i]);
        assert(v[i + 0] == v[i]);
        assert(fits_at(steps, v, i));
        assert(steps_accept(alts[0], v));
    }
}

/// `[[:name:]]` and `[^[:name:]]` are each one single-character step, and
/// the second accepts a character exactly when the first does not; so on an
/// ASCII line the negated bracket matches exactly when some character is
/// outside the class.
pub proof fn law_negated_class_bracket(name: Seq<char>, c: char, v: Seq<char>)
    requires
        forall|k: int| 0 <= k < name.len() ==> plain_char(#[trigger] name[k]),
        is_ascii_chars(v),
    ensures
        parse_pattern(class_bracket(name, false)) matches Ok(a) && parse_pattern(
            class_bracket(name, true),
        ) matches Ok(b) && a.len() == 1 && a[0].len() == 1 && b.len() == 1 && b[0].len() == 1
            && one_char_step(a[0][0]) && one_char_step(b[0][0]) && accepts_char(b[0][0].val, c)
            == !accepts_char(a[0][0].val, c) && pattern_accepts(b, v) == (exists|i: int|
            0 <= i < v.len() && !accepts_char(a[0][0].val, #[trigger] v[i])),
{
    lemma_parse_class_bracket(name, false);
    lemma_parse_class_bracket(name, true);
    lemma_one_step_accepts(ValView::Clase(name, true), v);
}

/// `[[:alpha:]]` accepts exactly the ASCII lines holding a letter, upper or
/// lower case, and `[^[:alpha:]]` exactly those holding something else.
pub proof fn law_alpha_bracket_accepts_letters(v: Seq<char>)
    requires
        is_ascii_chars(v),
    ensures
        parse_pattern(class_bracket("alpha"@, false)) matches Ok(a) && pattern_accepts(a, v) == (
        exists|i: int|
            0 <= i < v.len() && (('a' <= #[trigger] v[i] && v[i] <= 'z') || ('A' <= v[i] && v[i]
                <= 'Z'))),
        parse_pattern(class_bracket("alpha"@, true)) matches Ok(b) && pattern_accepts(b, v) == (
        exists|i: int|
            0 <= i < v.len() && !(('a' <= #[trigger] v[i] && v[i] <= 'z') || ('A' <= v[i] && v[i]
                <= 'Z'))),
{
    reveal_strlit("alpha");
    let name = "alpha"@;
    assert forall|k: int| 0 <= k < name.len() implies plain_char(#[trigger] name[k]) by {}
    lemma_parse_class_bracket(name, false);
    lemma_parse_class_bracket(name, true);
    lemma_one_step_accepts(ValView::Clase(name, false), v);
    lemma_one_step_accepts(ValView::Clase(name, true), v);
    assert forall|i: int| 0 <= i < v.len() implies accepts_char(
        ValView::Clase(name, false),
        #[trigger] v[i],
    ) == (('a' <= v[i] && v[i] <= 'z') || ('A' <= v[i] && v[i] <= 'Z')) by {
        assert('\0' <= v[i] <= '\u{7f}');
        law_ascii_classes(v[i], false);
    }
}

/// The text of the bracket listing the characters `w`: `[w]`, or `[^w]`
/// when negated.
pub open spec fn bracket_list(w: Seq<char>, negated: bool) -> Seq<char> {
    (if negated {
        seq!['[', '^']
    } else {
        seq!['[']
    }) + w + seq![']']
}

/// Reading listed characters one after the other.
proof fn lemma_scan_list(p: Seq<char>, start: int, w: Seq<char>, j: int, st: BracketState)
    requires
        0 <= start,
        start + w.len() <= p.len(),
        p.subrange(start, start + w.len()) == w,
        forall|k: int| 0 <= k < w.len() ==> plain_char(#[trigger] w[k]),
        0 <= j < w.len(),
        !st.es_clase,
        !st.range,
        st.chars == w.take(j),
    ensures
        bracket_scan(p, start + j, st) == bracket_scan(
            p,
            start + w.len(),
            BracketState { chars: w, last: Some(w.last()), ..st },
        ),
    decreases w.len() - j,
{
    let c = w[j];
    assert(plain_char(w[j]));
    assert(p[start + j] == p.subrange(start, start + w.len())[j]);
    let st2 = BracketState { chars: w.take(j + 1), last: Some(c), ..st };
    assert(st.chars.push(c) =~= w.take(j + 1));
    assert(bracket_read(st, c) == Ok::<BracketState, ParseFault>(st2));
    if j + 1 == w.len() {
        assert(w.take(j + 1) =~= w);
    } else {
        lemma_scan_list(p, start, w, j + 1, st2);
    }
}

/// Reading `[w]` or `[^w]`: one step, the bracket listing `w`, negated
/// exactly when it begins with `^`.
#[verifier::spinoff_prover]
#[verifier::rlimit(50)]
proof fn lemma_parse_bracket_list(w: Seq<char>, negated: bool)
    requires
        w.len() > 0,
        forall|k: int| 0 <= k < w.len() ==> plain_char(#[trigger] w[k]),
    ensures
        parse_pattern(bracket_list(w, negated)) == Ok::<Seq<Seq<StepView>>, ParseFault>(
            seq![seq![single(ValView::Bracket(w, negated))]],
        ),
{
    let p = bracket_list(w, negated);
    let off: int = if negated {
        2
    } else {
        1
    };
    let n = w.len() as int;
    assert(p.len() == off + n + 1);
    assert forall|k: int| off <= k < off + n implies p[k] == w[k - off] by {}
    assert(p.subrange(off, off + n) =~= w);
    assert forall|k: int| 0 <= k < p.len() implies p[k] != '|' by {
        if off <= k < off + n {
            assert(plain_char(w[k - off]));
        }
    }
    crate::laws::lemma_split_without_separator(p, '|');
    let st0 = BracketState { negado: negated, ..bracket_start() };
    if negated {
        assert(p[1] == '^');
        assert(bracket_read(bracket_start(), '^') == Ok::<BracketState, ParseFault>(st0));
        assert(bracket_scan(p, 1, bracket_start()) == bracket_scan(p, 2, st0));
    } else {
        assert(st0 == bracket_start());
    }
    assert(w.take(0) =~= Seq::<char>::empty());
    lemma_scan_list(p, off, w, 0, st0);
    let st1 = BracketState { chars: w, last: Some(w.last()), ..st0 };
    assert(p[off + n] == ']');
    assert(bracket_scan(p, off + n, st1) == Ok::<(int, BracketState), ParseFault>(
        (off + n + 1, st1),
    ));
    let steps = seq![single(ValView::Bracket(w, negated))];
    assert(bracket_steps(st1) =~= steps);
    assert(Seq::<StepView>::empty() + steps =~= steps);
    crate::pattern::lemma_bracket_scan_advances(p, 1, bracket_start());
    assert(parse_part(p, 0, Seq::empty()) == Ok::<Seq<StepView>, ParseFault>(steps)) by {
        reveal_with_fuel(parse_part, 2);
    }
    assert(seq![p].drop_last() =~= Seq::<Seq<char>>::empty());
    assert(parse_parts(seq![p]) == Ok::<Seq<Seq<StepView>>, ParseFault>(
        Seq::<Seq<StepView>>::empty().push(steps),
    )) by {
        reveal_with_fuel(parse_parts, 2);
    }
    assert(Seq::<Seq<StepView>>::empty().push(steps) =~= seq![steps]);
}

/// A bracket listing letters, digits or spaces `w` is one single-character
/// step that accepts exactly the listed characters, or, when it begins with
/// `^`, exactly the others; so it accepts exactly the ASCII lines holding
/// such a character.
pub proof fn law_bracket_list_accepts_listed(w: Seq<char>, negated: bool, c: char, v: Seq<char>)
    requires
        w.len() > 0,
        forall|k: int| 0 <= k < w.len() ==> plain_char(#[trigger] w[k]),
        is_ascii_chars(v),
    ensures
        parse_pattern(bracket_list(w, negated)) matches Ok(a) && a.len() == 1 && a[0].len() == 1
            && one_char_step(a[0][0]) && accepts_char(a[0][0].val, c) == (w.contains(c)
            != negated) && pattern_accepts(a, v) == (exists|i: int|
            0 <= i < v.len() && w.contains(#[trigger] v[i]) != negated),
{
    lemma_parse_bracket_list(w, negated);
    lemma_one_step_accepts(ValView::Bracket(w, negated), v);
}

/// Greedy repetition takes only characters that its value accepts.
proof fn lemma_range_scan_accepted(
    val: ValView,
    value: Seq<char>,
    i: int,
    total: nat,
    max: Option<usize>,
    stack: Seq<EvalView>,
    step: StepView,
)
    requires
        is_ascii_chars(value),
        0 <= i <= value.len(),
    ensures
        forall|k: int|
            i <= k < range_scan(val, value, i, total, max, stack, step).0 ==> accepts_char(
                val,
                #[trigger] value[k],
            ),
    decreases value.len() - i,
{
    lemma_match_len_ascii(val, value, i);
    let sz = match_len(val, value.skip(i));
    if sz != 0 {
        assert(value.skip(i)[0] == value[i]);
        let stack2 = stack.push(EvalView { step, match_size: sz, backtrackeable: true });
        if !(max matches Some(m) && total + sz >= m) {
            lemma_range_scan_accepted(val, value, i + sz, total + sz, max, stack2, step);
        }
    }
}

/// A repetition moves on to the next step only once it has taken at least
/// its lower bound of characters of an ASCII line, every one of them
/// accepted by its value; when it takes fewer it gives input back and tries
/// its step again, or stops.
pub proof fn law_lower_bound_required(
    value: Seq<char>,
    st: MachineState,
    step: StepView,
    rest: Seq<StepView>,
    min: Option<usize>,
    max: Option<usize>,
)
    requires
        machine_wf(value, st),
    ensures
        match range_turn(value, st, step, rest, min, max) {
            Turn::Continue(nx) => nx.queue == rest ==> (min matches Some(n) ==> nx.index
                >= st.index + n) && (forall|k: int|
                st.index <= k < nx.index ==> accepts_char(step.val, #[trigger] value[k])),
            Turn::Stop(_) => true,
        },
{
    lemma_range_scan(step.val, value, st.index, 0, max, st.stack, step);
    lemma_range_scan_accepted(step.val, value, st.index, 0, max, st.stack, step);
    let (j, total, stack) = range_scan(step.val, value, st.index, 0, max, st.stack, step);
    if min matches Some(n) && total < n {
        assert(crate::machine::undo_queue(stack, step, rest).len() > rest.len());
    }
}

/// The one-alternative pattern of a single step.
proof fn lemma_parse_single_part(p: Seq<char>, steps: Seq<StepView>)
    requires
        forall|k: int| 0 <= k < p.len() ==> p[k] != '|',
        parse_part(p, 0, Seq::empty()) == Ok::<Seq<StepView>, ParseFault>(steps),
    ensures
        parse_pattern(p) == Ok::<Seq<Seq<StepView>>, ParseFault>(seq![steps]),
{
    crate::laws::lemma_split_without_separator(p, '|');
    assert(seq![p].drop_last() =~= Seq::<Seq<char>>::empty());
    assert(parse_parts(seq![p]) == Ok::<Seq<Seq<StepView>>, ParseFault>(
        Seq::<Seq<StepView>>::empty().push(steps),
    )) by {
        reveal_with_fuel(parse_parts, 2);
    }
    assert(Seq::<Seq<StepView>>::empty().push(steps) =~= seq![steps]);
}

/// `x` followed by one of `+`, `*`, `?`: the literal with that repetition.
proof fn lemma_parse_postfix(x: char, q: char, rep: RegexRep)
    requires
        plain_char(x),
        (q == '+' && rep == RegexRep::Range { min: Some(1), max: None }) || (q == '*' && rep
            == RegexRep::Range { min: Some(0), max: None }) || (q == '?' && rep == RegexRep::Range {
            min: Some(0),
            max: Some(1),
        }),
    ensures
        parse_pattern(seq![x, q]) == Ok::<Seq<Seq<StepView>>, ParseFault>(
            seq![seq![StepView { val: ValView::Literal(x), rep }]],
        ),
{
    let lit = seq![single(ValView::Literal(x))];
    assert(Seq::<StepView>::empty().push(single(ValView::Literal(x))) =~= lit);
    let p = seq![x, q];
    let steps = seq![StepView { val: ValView::Literal(x), rep }];
    assert(set_last_rep(lit, rep) =~= steps);
    assert(p[0] == x && p[1] == q);
    assert(parse_part(p, 0, Seq::empty()) == parse_part(p, 1, lit));
    assert(parse_part(p, 1, lit) == parse_part(p, 2, set_last_rep(lit, rep)));
    assert(parse_part(p, 2, steps) == Ok::<Seq<StepView>, ParseFault>(steps));
    assert forall|k: int| 0 <= k < p.len() implies p[k] != '|' by {}
    lemma_parse_single_part(p, steps);
}

/// `x{t}`: the literal repeated between the bounds `t` reads as, or the
/// fault of `t`.
#[verifier::spinoff_prover]
proof fn lemma_parse_braces_after(x: char, t: Seq<char>)
    requires
        plain_char(x),
        forall|k: int| 0 <= k < t.len() ==> t[k] != '}' && t[k] != '|',
    ensures
        parse_pattern(seq![x, '{'] + t + seq!['}']) == match brace_bounds(t) {
            Ok((min, max)) => Ok::<Seq<Seq<StepView>>, ParseFault>(
                seq![seq![StepView { val: ValView::Literal(x), rep: RegexRep::Range { min, max } }]],
            ),
            Err(f) => Err::<Seq<Seq<StepView>>, ParseFault>(f),
        },
{
    let lit = seq![single(ValView::Literal(x))];
    assert(Seq::<StepView>::empty().push(single(ValView::Literal(x))) =~= lit);
    let p = seq![x, '{'] + t + seq!['}'];
    let n = t.len() as int;
    assert forall|k: int| 2 <= k < 2 + n implies p[k] == t[k - 2] by {}
    assert(p[2 + n] == '}');
    lemma_brace_close(p, 2);
    assert(brace_close(p, 2) == 2 + n) by {
        if brace_close(p, 2) < 2 + n {
            assert(p[brace_close(p, 2)] == t[brace_close(p, 2) - 2]);
        }
    }
    assert(p.subrange(2, 2 + n) =~= t);
    assert forall|k: int| 0 <= k < p.len() implies p[k] != '|' by {
        if 2 <= k < 2 + n {
            assert(p[k] == t[k - 2]);
        }
    }
    assert(parse_part(p, 0, Seq::empty()) == parse_part(p, 1, lit));
    match brace_bounds(t) {
        Ok((min, max)) => {
            let steps = seq![StepView { val: ValView::Literal(x), rep: RegexRep::Range { min, max } }];
            assert(set_last_rep(lit, RegexRep::Range { min, max }) =~= steps);
            assert(parse_part(p, 1, lit) == parse_part(p, 3 + n, steps));
            lemma_parse_single_part(p, steps);
        },
        Err(f) => {
            assert(parse_part(p, 1, lit) == Err::<Seq<StepView>, ParseFault>(f));
            crate::laws::lemma_split_without_separator(p, '|');
            assert(seq![p].drop_last() =~= Seq::<Seq<char>>::empty());
            assert(parse_parts(seq![p]) == Err::<Seq<Seq<StepView>>, ParseFault>(f)) by {
                reveal_with_fuel(parse_parts, 2);
            }
        },
    }
}

/// After a letter, digit or space `x`: `x+` repeats it at least once, `x*`
/// any number of times, `x?` at most once, and `x{t}`, for bounds `t`
/// without `}` or `|`, between the bounds that `t` reads as (or is refused
/// with the fault of `t`).
pub proof fn law_repetition_operators(x: char, t: Seq<char>)
    requires
        plain_char(x),
        forall|k: int| 0 <= k < t.len() ==> t[k] != '}' && t[k] != '|',
    ensures
        parse_pattern(seq![x, '+']) == Ok::<Seq<Seq<StepView>>, ParseFault>(
            seq![seq![StepView { val: ValView::Literal(x), rep: RegexRep::Range { min: Some(1), max: None } }]],
        ),
        parse_pattern(seq![x, '*']) == Ok::<Seq<Seq<StepView>>, ParseFault>(
            seq![seq![StepView { val: ValView::Literal(x), rep: RegexRep::Range { min: Some(0), max: None } }]],
        ),
        parse_pattern(seq![x, '?']) == Ok::<Seq<Seq<StepView>>, ParseFault>(
            seq![seq![StepView { val: ValView::Literal(x), rep: RegexRep::Range { min: Some(0), max: Some(1) } }]],
        ),
        parse_pattern(seq![x, '{'] + t + seq!['}']) == match brace_bounds(t) {
            Ok((min, max)) => Ok::<Seq<Seq<StepView>>, ParseFault>(
                seq![seq![StepView { val: ValView::Literal(x), rep: RegexRep::Range { min, max } }]],
            ),
            Err(f) => Err::<Seq<Seq<StepView>>, ParseFault>(f),
        },
{
    lemma_parse_postfix(x, '+', RegexRep::Range { min: Some(1), max: None });
    lemma_parse_postfix(x, '*', RegexRep::Range { min: Some(0), max: None });
    lemma_parse_postfix(x, '?', RegexRep::Range { min: Some(0), max: Some(1) });
    lemma_parse_braces_after(x, t);
}

} // verus!
