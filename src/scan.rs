use vstd::prelude::*;

use vstd::std_specs::iter::IteratorSpec;

use crate::term::{DieRollTerm, RollError};

verus! {

// ---------------------------------------------------------------------------
// The grammar, as spec functions over the characters of a normalized string.
//
//   term := [sign] digits [('d' | 'D') digits]
//
// Terms are found left to right; at each position the longest term wins, and
// characters that start no term are skipped.
// ---------------------------------------------------------------------------

pub open spec fn is_digit(c: char) -> bool {
    '0' <= c && c <= '9'
}

pub open spec fn is_sign(c: char) -> bool {
    c == '+' || c == '-'
}

pub open spec fn is_die_letter(c: char) -> bool {
    c == 'd' || c == 'D'
}

pub open spec fn digit_value(c: char) -> int {
    (c as u32 as int) - ('0' as u32 as int)
}

/// The number that a run of decimal digits spells.
pub open spec fn digits_value(d: Seq<char>) -> int
    decreases d.len(),
{
    if d.len() == 0 {
        0
    } else {
        digits_value(d.drop_last()) * 10 + digit_value(d.last())
    }
}

/// The first position at or after `i` that holds no digit.
pub open spec fn digits_end(s: Seq<char>, i: int) -> int
    decreases s.len() - i,
{
    if 0 <= i < s.len() && is_digit(s[i]) {
        digits_end(s, i + 1)
    } else {
        i
    }
}

/// A term starts at `i`: a digit, or a sign followed by a digit.
pub open spec fn term_starts_at(s: Seq<char>, i: int) -> bool {
    &&& 0 <= i < s.len()
    &&& is_digit(s[i]) || (is_sign(s[i]) && i + 1 < s.len() && is_digit(s[i + 1]))
}

pub open spec fn count_start(s: Seq<char>, i: int) -> int {
    if is_sign(s[i]) {
        i + 1
    } else {
        i
    }
}

pub open spec fn count_end(s: Seq<char>, i: int) -> int {
    digits_end(s, count_start(s, i))
}

/// The term at `i` is a die roll: its count is followed by a die letter and a digit.
pub open spec fn has_sides(s: Seq<char>, i: int) -> bool {
    let e = count_end(s, i);
    e + 1 < s.len() && is_die_letter(s[e]) && is_digit(s[e + 1])
}

/// Where the term that starts at `i` ends.
pub open spec fn term_end(s: Seq<char>, i: int) -> int {
    if has_sides(s, i) {
        digits_end(s, count_end(s, i) + 1)
    } else {
        count_end(s, i)
    }
}

/// The signed count (or modifier) of the term at `i`.
pub open spec fn count_value(s: Seq<char>, i: int) -> int {
    let m = digits_value(s.subrange(count_start(s, i), count_end(s, i)));
    if s[i] == '-' {
        -m
    } else {
        m
    }
}

pub open spec fn sides_value(s: Seq<char>, i: int) -> int {
    digits_value(s.subrange(count_end(s, i) + 1, term_end(s, i)))
}

/// The term at `i`; its numbers must fit `i8` (count, modifier) and `u8` (sides).
pub open spec fn term_at(s: Seq<char>, i: int) -> Result<DieRollTerm, RollError> {
    let c = count_value(s, i);
    if has_sides(s, i) {
        let d = sides_value(s, i);
        if -128 <= c <= 127 && d <= 255 {
            Ok(DieRollTerm::DieRoll { multiplier: c as i8, sides: d as u8 })
        } else {
            Err(RollError::NumericOverflow)
        }
    } else if -128 <= c <= 127 {
        Ok(DieRollTerm::Modifier(c as i8))
    } else {
        Err(RollError::NumericOverflow)
    }
}

pub open spec fn prepend(
    acc: Seq<DieRollTerm>,
    r: Result<Seq<DieRollTerm>, RollError>,
) -> Result<Seq<DieRollTerm>, RollError> {
    match r {
        Ok(ts) => Ok(acc + ts),
        Err(e) => Err(e),
    }
}

/// The terms from position `i` on, or the first error met there.
pub open spec fn scan_from(s: Seq<char>, i: int) -> Result<Seq<DieRollTerm>, RollError>
    decreases s.len() - i,
    via scan_from_decreases
{
    if i < 0 || i >= s.len() {
        Ok(Seq::empty())
    } else if term_starts_at(s, i) {
        match term_at(s, i) {
            Ok(t) => prepend(seq![t], scan_from(s, term_end(s, i))),
            Err(e) => Err(e),
        }
    } else {
        scan_from(s, i + 1)
    }
}

#[via_fn]
proof fn scan_from_decreases(s: Seq<char>, i: int) {
    if 0 <= i < s.len() && term_starts_at(s, i) {
        lemma_term_end(s, i);
    }
}

// ---------------------------------------------------------------------------
// Whitespace.
// ---------------------------------------------------------------------------

/// Whether `char::is_whitespace` holds of `c` (Unicode's `White_Space`).
pub uninterp spec fn is_white_space(c: char) -> bool;

/// The characters of `s` that are not whitespace, in order.
pub open spec fn strip_white_space(s: Seq<char>) -> Seq<char> {
    s.filter(|c: char| !is_white_space(c))
}

/// What parsing makes of `expression`: the terms of its normalized form.
pub open spec fn parse_spec(expression: Seq<char>) -> Result<Seq<DieRollTerm>, RollError> {
    scan_from(strip_white_space(expression), 0)
}

pub open spec fn terms_view(r: Result<Vec<DieRollTerm>, RollError>) -> Result<
    Seq<DieRollTerm>,
    RollError,
> {
    match r {
        Ok(v) => Ok(v@),
        Err(e) => Err(e),
    }
}

/// Relies on `char::is_whitespace`.
#[verifier::external_body]
fn char_is_whitespace(c: char) -> (r: bool)
    ensures
        r == is_white_space(c),
{
    c.is_whitespace()
}

/// Relies on `String::push`: appends `c` at the end.
#[verifier::external_body]
fn push_char(s: &mut String, c: char)
    ensures
        final(s)@ == old(s)@.push(c),
{
    s.push(c)
}

// ---------------------------------------------------------------------------
// Lemmas.
// ---------------------------------------------------------------------------

proof fn lemma_digits_end(s: Seq<char>, i: int)
    requires
        0 <= i <= s.len(),
    ensures
        i <= digits_end(s, i) <= s.len(),
        forall|k: int| i <= k < digits_end(s, i) ==> is_digit(#[trigger] s[k]),
        digits_end(s, i) < s.len() ==> !is_digit(s[digits_end(s, i)]),
    decreases s.len() - i,
{
    if i < s.len() && is_digit(s[i]) {
        lemma_digits_end(s, i + 1);
    }
}

proof fn lemma_term_end(s: Seq<char>, i: int)
    requires
        term_starts_at(s, i),
    ensures
        i < count_start(s, i) + 1 <= count_end(s, i) + 1,
        count_end(s, i) <= term_end(s, i) <= s.len(),
        i < term_end(s, i),
        forall|k: int| count_start(s, i) <= k < count_end(s, i) ==> is_digit(#[trigger] s[k]),
        has_sides(s, i) ==> count_end(s, i) + 1 < term_end(s, i),
        has_sides(s, i) ==> forall|k: int|
            count_end(s, i) + 1 <= k < term_end(s, i) ==> is_digit(#[trigger] s[k]),
{
    lemma_digits_end(s, count_start(s, i));
    if has_sides(s, i) {
        lemma_digits_end(s, count_end(s, i) + 1);
    }
}

proof fn lemma_digits_value_monotone(s: Seq<char>, from: int, k: int, to: int)
    requires
        0 <= from <= k <= to <= s.len(),
        forall|j: int| from <= j < to ==> is_digit(#[trigger] s[j]),
    ensures
        0 <= digits_value(s.subrange(from, k)) <= digits_value(s.subrange(from, to)),
    decreases to - from,
{
    let d = s.subrange(from, to);
    if to > from {
        assert(d.drop_last() =~= s.subrange(from, to - 1));
        assert(d.last() == s[to - 1]);
        if k < to {
            lemma_digits_value_monotone(s, from, k, to - 1);
        } else {
            lemma_digits_value_monotone(s, from, k - 1, to - 1);
        }
    } else {
        assert(d =~= Seq::<char>::empty());
    }
}

/// Removing whitespace from a string that has none leaves it as it is.
pub proof fn lemma_strip_idempotent(e: Seq<char>)
    ensures
        strip_white_space(strip_white_space(e)) == strip_white_space(e),
    decreases e.len(),
{
    let p = |c: char| !is_white_space(c);
    if e.len() > 0 {
        let d = e.drop_last();
        let c = e.last();
        assert(d.push(c) == e);
        d.lemma_filter_push(c, p);
        lemma_strip_idempotent(d);
        if p(c) {
            d.filter(p).lemma_filter_push(c, p);
        }
    } else {
        assert(e.filter(p) =~= Seq::<char>::empty());
        assert(Seq::<char>::empty().filter(p) =~= Seq::<char>::empty());
    }
}

/// Parsing the normalized form of an expression gives what parsing the
/// expression gives.
pub proof fn lemma_parse_normalized(e: Seq<char>)
    ensures
        parse_spec(strip_white_space(e)) == parse_spec(e),
{
    lemma_strip_idempotent(e);
}

// ---------------------------------------------------------------------------
// Executable scanner.
// ---------------------------------------------------------------------------

fn char_is_digit(c: char) -> (r: bool)
    ensures
        r == is_digit(c),
{
    '0' <= c && c <= '9'
}

fn digits_end_exec(s: &Vec<char>, i: usize) -> (e: usize)
    requires
        i <= s.len(),
    ensures
        e == digits_end(s@, i as int),
{
    let mut j: usize = i;
    while j < s.len() && char_is_digit(s[j])
        invariant
            i <= j <= s.len(),
            digits_end(s@, j as int) == digits_end(s@, i as int),
        decreases s.len() - j,
    {
        j = j + 1;
    }
    j
}

/// The number spelled by the digits `s[from..to]`, if it is at most `bound`.
fn read_number(s: &Vec<char>, from: usize, to: usize, bound: u32) -> (r: Option<u32>)
    requires
        from <= to <= s.len(),
        forall|j: int| from <= j < to ==> is_digit(#[trigger] s@[j]),
        bound <= 1000,
    ensures
        match r {
            Some(v) => v == digits_value(s@.subrange(from as int, to as int)) && v <= bound,
            None => digits_value(s@.subrange(from as int, to as int)) > bound,
        },
{
    let mut v: u32 = 0;
    let mut k: usize = from;
    assert(s@.subrange(from as int, from as int) =~= Seq::<char>::empty());
    while k < to
        invariant
            from <= k <= to <= s.len(),
            forall|j: int| from <= j < to ==> is_digit(#[trigger] s@[j]),
            bound <= 1000,
            v == digits_value(s@.subrange(from as int, k as int)),
            v <= bound,
        decreases to - k,
    {
        let c = s[k];
        assert(is_digit(s@[k as int]));
        let d: u32 = (c as u32) - ('0' as u32);
        let next: u32 = v * 10 + d;
        proof {
            let p = s@.subrange(from as int, k as int + 1);
            assert(p.drop_last() =~= s@.subrange(from as int, k as int));
            assert(p.last() == c);
        }
        if next > bound {
            proof {
                lemma_digits_value_monotone(s@, from as int, k as int + 1, to as int);
            }
            return None;
        }
        v = next;
        k = k + 1;
    }
    Some(v)
}

fn term_starts_at_exec(s: &Vec<char>, i: usize) -> (r: bool)
    requires
        i < s.len(),
    ensures
        r == term_starts_at(s@, i as int),
{
    let c = s[i];
    if char_is_digit(c) {
        true
    } else {
        (c == '+' || c == '-') && i + 1 < s.len() && char_is_digit(s[i + 1])
    }
}

impl DieRollTerm {
    /// Reads the term that starts at `start` in the normalized characters `s`;
    /// returns it (or why its numbers do not fit) and where it ends.
    pub fn parse(s: &Vec<char>, start: usize) -> (r: (Result<DieRollTerm, RollError>, usize))
        requires
            term_starts_at(s@, start as int),
        ensures
            r.0 == term_at(s@, start as int),
            r.1 == term_end(s@, start as int),
            start < r.1 <= s.len(),
    {
        proof {
            lemma_term_end(s@, start as int);
        }
        assert(start < s.len());
        let negative = s[start] == '-';
        let cs: usize = if s[start] == '+' || s[start] == '-' {
            start + 1
        } else {
            start
        };
        let ce = digits_end_exec(s, cs);
        let bound: u32 = if negative {
            128
        } else {
            127
        };
        let count = read_number(s, cs, ce, bound);
        let ghost c = count_value(s@, start as int);
        let sided = ce < s.len() && ce + 1 < s.len() && (s[ce] == 'd' || s[ce] == 'D')
            && char_is_digit(s[ce + 1]);
        if sided {
            let se = digits_end_exec(s, ce + 1);
            let sides = read_number(s, ce + 1, se, 255);
            match (count, sides) {
                (Some(m), Some(d)) => {
                    let multiplier: i8 = if negative {
                        (0 - (m as i32)) as i8
                    } else {
                        m as i8
                    };
                    (Ok(DieRollTerm::DieRoll { multiplier, sides: d as u8 }), se)
                },
                _ => (Err(RollError::NumericOverflow), se),
            }
        } else {
            match count {
                Some(m) => {
                    let n: i8 = if negative {
                        (0 - (m as i32)) as i8
                    } else {
                        m as i8
                    };
                    (Ok(DieRollTerm::Modifier(n)), ce)
                },
                None => (Err(RollError::NumericOverflow), ce),
            }
        }
    }
}

pub(crate) fn scan_terms(s: &Vec<char>) -> (r: Result<Vec<DieRollTerm>, RollError>)
    ensures
        terms_view(r) == scan_from(s@, 0),
{
    let mut terms: Vec<DieRollTerm> = Vec::new();
    let mut i: usize = 0;
    assert(terms@ + Seq::<DieRollTerm>::empty() =~= terms@);
    while i < s.len()
        invariant
            i <= s.len(),
            scan_from(s@, 0) == prepend(terms@, scan_from(s@, i as int)),
        decreases s.len() - i,
    {
        if term_starts_at_exec(s, i) {
            let (t, e) = DieRollTerm::parse(s, i);
            match t {
                Ok(t) => {
                    proof {
                        let rest = scan_from(s@, e as int);
                        if let Ok(ts) = rest {
                            assert(terms@ + (seq![t] + ts) =~= terms@.push(t) + ts);
                        }
                    }
                    terms.push(t);
                    i = e;
                },
                Err(x) => {
                    return Err(x);
                },
            }
        } else {
            i = i + 1;
        }
    }
    assert(terms@ + Seq::<DieRollTerm>::empty() =~= terms@);
    Ok(terms)
}

/// The non-whitespace characters of `expression`, as a `String` and as a `Vec`.
pub(crate) fn normalized_chars(expression: &str) -> (r: (String, Vec<char>))
    ensures
        r.0@ == strip_white_space(expression@),
        r.1@ == strip_white_space(expression@),
{
    let mut out = String::new();
    let mut chars: Vec<char> = Vec::new();
    let mut it = expression.chars();
    let ghost mut seen: Seq<char> = Seq::empty();
    proof {
        broadcast use vstd::string::group_string_axioms;
        assert(it.remaining() == expression@);
        assert(seen + it.remaining() =~= expression@);
        assert(Seq::<char>::empty().filter(|c: char| !is_white_space(c)) =~= Seq::<char>::empty());
    }
    loop
        invariant
            expression@ == seen + it.remaining(),
            out@ == strip_white_space(seen),
            chars@ == out@,
            it.decrease() is Some,
        ensures
            out@ == strip_white_space(expression@),
            chars@ == out@,
        decreases it.decrease()->0,
    {
        let ghost before = it;
        let next = it.next();
        match next {
            Some(c) => {
                proof {
                    broadcast use vstd::string::group_string_axioms;
                    assert(before.remaining().len() > 0);
                    assert(c == before.remaining()[0]);
                    seen.lemma_filter_push(c, |c: char| !is_white_space(c));
                    assert(seen.push(c) + it.remaining() =~= seen + before.remaining());
                    seen = seen.push(c);
                }
                if !char_is_whitespace(c) {
                    push_char(&mut out, c);
                    chars.push(c);
                }
            },
            None => {
                proof {
                    broadcast use vstd::string::group_string_axioms;
                    assert(seen =~= expression@);
                }
                break;
            },
        }
    }
    (out, chars)
}

/// `expression` with all whitespace removed.
pub fn normalize(expression: &str) -> (r: String)
    ensures
        r@ == strip_white_space(expression@),
{
    normalized_chars(expression).0
}

/// The terms of `expression`, left to right, after whitespace is removed.
/// Characters that start no term are skipped; a number that does not fit
/// its type gives `NumericOverflow`.
pub fn parse_terms(expression: &str) -> (r: Result<Vec<DieRollTerm>, RollError>)
    ensures
        terms_view(r) == parse_spec(expression@),
{
    let (_, chars) = normalized_chars(expression);
    scan_terms(&chars)
}

} // verus!
