//! Text helpers: characters of a string, splitting at a separator, and
//! reading a decimal number.
use vstd::prelude::*;

verus! {

/// The characters of `s`, in order.
pub(crate) fn chars_of(s: &str) -> (v: Vec<char>)
    ensures
        v@ == s@,
{
    let mut v: Vec<char> = Vec::new();
    for c in it: s.chars()
        invariant
            v@ == it.seq().take(it.index() as int),
    {
        v.push(c);
    }
    v
}


/// The first character of `s`, if there is one.
pub(crate) fn first_char(s: &str) -> (r: Option<char>)
    ensures
        r == (if s@.len() > 0 { Some(s@[0]) } else { None::<char> }),
{
    let mut it = s.chars();
    it.next()
}

/// Whether `a` and `b` hold the same characters.
pub(crate) fn same_text(a: &str, b: &str) -> (r: bool)
    ensures
        r == (a@ == b@),
{
    let x = chars_of(a);
    let y = chars_of(b);
    if x.len() != y.len() {
        return false;
    }
    let mut i: usize = 0;
    while i < x.len()
        invariant
            x@ == a@,
            y@ == b@,
            x.len() == y.len(),
            i <= x.len(),
            forall|j: int| 0 <= j < i ==> x@[j] == y@[j],
        decreases x.len() - i,
    {
        if x[i] != y[i] {
            return false;
        }
        i += 1;
    }
    assert(x@ =~= y@);
    true
}


/// The pieces of `s` between occurrences of `sep` (`str::split` with a
/// character pattern): one more piece than there are separators.
pub open spec fn split_on(s: Seq<char>, sep: char) -> Seq<Seq<char>>
    decreases s.len(),
{
    if s.len() == 0 {
        seq![Seq::<char>::empty()]
    } else {
        let init = split_on(s.drop_last(), sep);
        if s.last() == sep {
            init.push(Seq::<char>::empty())
        } else {
            init.update(init.len() - 1, init.last().push(s.last()))
        }
    }
}

/// `split_on` never yields an empty list of pieces.
pub proof fn lemma_split_on_len(s: Seq<char>, sep: char)
    ensures
        split_on(s, sep).len() >= 1,
    decreases s.len(),
{
    if s.len() > 0 {
        lemma_split_on_len(s.drop_last(), sep);
    }
}

/// The pieces of `s` between occurrences of `sep`.
pub(crate) fn split_chars(s: &Vec<char>, sep: char) -> (r: Vec<Vec<char>>)
    ensures
        r@.map_values(|v: Vec<char>| v@) == split_on(s@, sep),
{
    let mut done: Vec<Vec<char>> = Vec::new();
    let mut current: Vec<char> = Vec::new();
    let mut i: usize = 0;
    assert(s@.take(0) =~= Seq::<char>::empty());
    while i < s.len()
        invariant
            i <= s.len(),
            done@.map_values(|v: Vec<char>| v@).push(current@) == split_on(s@.take(i as int), sep),
        decreases s.len() - i,
    {
        proof {
            lemma_split_on_len(s@.take(i as int), sep);
            assert(s@.take(i + 1).drop_last() =~= s@.take(i as int));
        }
        let c = s[i];
        let ghost before = done@.map_values(|v: Vec<char>| v@);
        if c == sep {
            let finished = current;
            current = Vec::new();
            done.push(finished);
            assert(done@.map_values(|v: Vec<char>| v@) =~= before.push(finished@));
            assert(done@.map_values(|v: Vec<char>| v@).push(current@) =~= split_on(
                s@.take(i + 1),
                sep,
            ));
        } else {
            let ghost old_current = current@;
            current.push(c);
            assert(done@.map_values(|v: Vec<char>| v@).push(current@) =~= split_on(
                s@.take(i + 1),
                sep,
            ));
        }
        i += 1;
    }
    done.push(current);
    assert(s@.take(i as int) =~= s@);
    assert(done@.map_values(|v: Vec<char>| v@) =~= split_on(s@, sep));
    done
}

/// Whether `c` is one of `'0'` to `'9'` (code points 48 to 57).
pub open spec fn is_decimal_digit(c: char) -> bool {
    48 <= c as u32 <= 57
}

/// Whether every character of `d` is an ASCII digit.
pub open spec fn all_digits(d: Seq<char>) -> bool {
    forall|k: int| 0 <= k < d.len() ==> is_decimal_digit(#[trigger] d[k])
}

/// The number that the decimal digits `d` write.
pub open spec fn decimal_value(d: Seq<char>) -> int
    decreases d.len(),
{
    if d.len() == 0 {
        0
    } else {
        decimal_value(d.drop_last()) * 10 + (d.last() as u32 - 48)
    }
}

/// What `str::parse::<usize>` gives for the text `s`: an optional `+` and at
/// least one decimal digit, of a value that fits in `usize`.
pub open spec fn usize_text(s: Seq<char>) -> Option<usize> {
    let d = if s.len() > 0 && s[0] == '+' {
        s.drop_first()
    } else {
        s
    };
    if d.len() > 0 && all_digits(d) && decimal_value(d) <= usize::MAX {
        Some(decimal_value(d) as usize)
    } else {
        None
    }
}

/// Parses `s` as a `usize`, as `str::parse::<usize>` does.
pub(crate) fn parse_usize(s: &Vec<char>) -> (r: Option<usize>)
    ensures
        r == usize_text(s@),
{
    let len = s.len();
    let mut i: usize = 0;
    if len > 0 && s[0] == '+' {
        i = 1;
    }
    let ghost first = i as int;
    let ghost d = s@.subrange(first, len as int);
    assert(d =~= if s@.len() > 0 && s@[0] == '+' {
        s@.drop_first()
    } else {
        s@
    });
    if i == len {
        return None;
    }
    let mut value: usize = 0;
    let mut overflow = false;
    assert(s@.subrange(first, first) =~= Seq::<char>::empty());
    while i < len
        invariant
            len == s@.len(),
            0 <= first <= i <= len,
            d == s@.subrange(first, len as int),
            d == if s@.len() > 0 && s@[0] == '+' {
                s@.drop_first()
            } else {
                s@
            },
            all_digits(s@.subrange(first, i as int)),
            !overflow ==> value == decimal_value(s@.subrange(first, i as int)),
            overflow ==> decimal_value(s@.subrange(first, i as int)) > usize::MAX,
            decimal_value(s@.subrange(first, i as int)) >= 0,
        decreases len - i,
    {
        let c = s[i];
        let x = c as u32;
        let ghost prefix = s@.subrange(first, i + 1);
        assert(prefix.drop_last() =~= s@.subrange(first, i as int));
        if x < 48 || x > 57 {
            assert(!all_digits(d)) by {
                assert(d[i - first] == c);
            }
            return None;
        }
        let digit = (x - 48) as usize;
        assert(prefix[prefix.len() - 1] == c);
        assert(is_decimal_digit(c));
        if !overflow {
            match value.checked_mul(10) {
                Some(m) => match m.checked_add(digit) {
                    Some(v) => {
                        value = v;
                    },
                    None => {
                        overflow = true;
                    },
                },
                None => {
                    overflow = true;
                },
            }
        }
        i += 1;
        assert(all_digits(s@.subrange(first, i as int))) by {
            assert forall|k: int| 0 <= k < prefix.len() implies is_decimal_digit(#[trigger] prefix[k]) by {
                if k < prefix.len() - 1 {
                    assert(prefix[k] == prefix.drop_last()[k]);
                }
            }
        }
    }
    assert(s@.subrange(first, len as int) =~= d);
    if overflow {
        None
    } else {
        Some(value)
    }
}


/// Appends `c` to `s`: calls `String::push`, which the standard library
/// documents as appending the character to the end of the string.
#[verifier::external_body]
pub(crate) fn push_char(s: &mut String, c: char)
    ensures
        final(s)@ == old(s)@.push(c),
{
    s.push(c);
}

} // verus!
