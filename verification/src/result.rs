//! Game results: winner, margin kind and free-form note, with a total
//! parser over the many textual result conventions.
use crate::board::Color;
use crate::text::{
    all_digits, find_char, has_prefix, is_digit_char, lower_of, lowercase, str_eq, str_has_prefix,
    trim_spec, trim_str,
};
use vstd::prelude::*;

verus! {

/// How a win was sized. A points margin keeps the numeric text exactly as
/// written in the record (the result parser hands it over case-folded).
#[derive(Debug, Clone, PartialEq, Eq)]
pub enum Score {
    Resignation,
    Timeout,
    Forfeit,
    Points(String),
}

/// The outcome of a game: a winner with an optional margin and note, a
/// draw, a voided game, or unrecognized text kept as written.
#[derive(Debug, Clone, PartialEq, Eq)]
pub enum GameResult {
    Player(Color, Option<Score>, String),
    Draw,
    Void,
    Unknown(String),
}

impl Score {
    /// An equal score value.
    pub fn duplicate(&self) -> (r: Score)
        ensures
            r == *self,
    {
        match self {
            Score::Resignation => Score::Resignation,
            Score::Timeout => Score::Timeout,
            Score::Forfeit => Score::Forfeit,
            Score::Points(s) => Score::Points(s.clone()),
        }
    }
}

impl GameResult {
    /// An equal result value.
    pub fn duplicate(&self) -> (r: GameResult)
        ensures
            r == *self,
    {
        match self {
            GameResult::Player(c, sc, note) => {
                let sc2 = match sc {
                    Some(s) => Some(s.duplicate()),
                    None => None,
                };
                GameResult::Player(*c, sc2, note.clone())
            },
            GameResult::Draw => GameResult::Draw,
            GameResult::Void => GameResult::Void,
            GameResult::Unknown(s) => GameResult::Unknown(s.clone()),
        }
    }
}

/// A sequence with its single leading plus or minus sign removed.
pub open spec fn strip_sign(s: Seq<char>) -> Seq<char> {
    if s.len() > 0 && (s[0] == '+' || s[0] == '-') {
        s.drop_first()
    } else {
        s
    }
}

/// Case-insensitive match of a character against a lowercase ASCII letter.
pub open spec fn ci_is(c: char, lo: char) -> bool {
    c == lo || (c as u32) + 32 == lo as u32
}

/// Case-insensitive equality against a lowercase ASCII word.
pub open spec fn eq_ci(s: Seq<char>, lo: Seq<char>) -> bool {
    s.len() == lo.len() && forall|i: int| 0 <= i < s.len() ==> ci_is(#[trigger] s[i], lo[i])
}

pub open spec fn count_char(s: Seq<char>, c: char) -> int
    decreases s.len(),
{
    if s.len() == 0 {
        0
    } else {
        count_char(s.drop_last(), c) + if s.last() == c {
            1int
        } else {
            0int
        }
    }
}

/// The shape of a decimal mantissa: digits with at most one point, and at
/// least one digit.
pub open spec fn is_mantissa(m: Seq<char>) -> bool {
    &&& forall|i: int| 0 <= i < m.len() ==> (is_digit_char(#[trigger] m[i]) || m[i] == '.')
    &&& count_char(m, '.') <= 1
    &&& exists|i: int| 0 <= i < m.len() && is_digit_char(#[trigger] m[i])
}

/// The shape of an exponent: an optional sign, then at least one digit.
pub open spec fn is_exp_digits(x: Seq<char>) -> bool {
    strip_sign(x).len() > 0 && all_digits(strip_sign(x))
}

/// The index of the exponent marker, the first 'e' or 'E'.
pub open spec fn exp_index(b: Seq<char>) -> Option<int> {
    match (b.index_of_first('e'), b.index_of_first('E')) {
        (Some(i), Some(j)) => if i <= j {
            Some(i)
        } else {
            Some(j)
        },
        (Some(i), None) => Some(i),
        (None, Some(j)) => Some(j),
        (None, None) => None,
    }
}

/// The grammar the standard library accepts for a floating-point number:
/// an optional sign, then an infinity or not-a-number word (any case) or a
/// decimal mantissa with an optional exponent.
pub open spec fn is_float_text(s: Seq<char>) -> bool {
    let b = strip_sign(s);
    ||| eq_ci(b, "inf"@)
    ||| eq_ci(b, "infinity"@)
    ||| eq_ci(b, "nan"@)
    ||| match exp_index(b) {
        Some(k) => is_mantissa(b.subrange(0, k)) && is_exp_digits(
            b.subrange(k + 1, b.len() as int),
        ),
        None => is_mantissa(b),
    }
}

/// Case-insensitive comparison against a lowercase ASCII word.
fn str_eq_ci(s: &str, lo: &str) -> (r: bool)
    ensures
        r == eq_ci(s@, lo@),
{
    let ls = s.unicode_len();
    let ll = lo.unicode_len();
    if ls != ll {
        return false;
    }
    let mut i: usize = 0;
    while i < ls
        invariant
            ls == s@.len() == lo@.len(),
            i <= ls,
            forall|k: int| 0 <= k < i ==> ci_is(#[trigger] s@[k], lo@[k]),
        decreases ls - i,
    {
        let c = s.get_char(i) as u32;
        let l = lo.get_char(i) as u32;
        if !(c == l || c + 32 == l) {
            return false;
        }
        i = i + 1;
    }
    true
}

/// Checks a mantissa region of already-located extent.
fn check_mantissa(s: &str, from: usize, to: usize) -> (r: bool)
    requires
        from <= to <= s@.len(),
    ensures
        r == is_mantissa(s@.subrange(from as int, to as int)),
{
    let ghost m = s@.subrange(from as int, to as int);
    let mut dots: usize = 0;
    let mut digit_seen = false;
    let mut i: usize = from;
    while i < to
        invariant
            from <= i <= to <= s@.len(),
            m == s@.subrange(from as int, to as int),
            dots == count_char(m.subrange(0, i - from), '.'),
            dots <= i,
            digit_seen == exists|k: int| 0 <= k < i - from && is_digit_char(#[trigger] m[k]),
            forall|k: int| 0 <= k < i - from ==> (is_digit_char(#[trigger] m[k]) || m[k] == '.'),
        decreases to - i,
    {
        let c = s.get_char(i);
        proof {
            assert(m[i - from] == s@[i as int]);
            assert(m.subrange(0, i - from + 1).drop_last() =~= m.subrange(0, i - from));
            assert(m.subrange(0, i - from + 1).last() == m[i - from]);
        }
        if crate::text::digit_char(c) {
            digit_seen = true;
        } else if c == '.' {
            dots = dots + 1;
        } else {
            return false;
        }
        i = i + 1;
    }
    proof {
        assert(m.subrange(0, m.len() as int) =~= m);
    }
    dots <= 1 && digit_seen
}

/// Checks an exponent region: an optional sign then at least one digit.
fn check_exp(s: &str, from: usize, to: usize) -> (r: bool)
    requires
        from <= to <= s@.len(),
    ensures
        r == is_exp_digits(s@.subrange(from as int, to as int)),
{
    let ghost x = s@.subrange(from as int, to as int);
    let start: usize = if from < to && (s.get_char(from) == '+' || s.get_char(from) == '-') {
        from + 1
    } else {
        from
    };
    proof {
        if from < to && (s@[from as int] == '+' || s@[from as int] == '-') {
            assert(strip_sign(x) =~= s@.subrange(from as int + 1, to as int));
        } else {
            assert(strip_sign(x) =~= x);
        }
    }
    if start == to {
        proof {
            assert(strip_sign(x).len() == 0);
        }
        return false;
    }
    let mut i: usize = start;
    while i < to
        invariant
            from <= start <= i <= to <= s@.len(),
            x == s@.subrange(from as int, to as int),
            strip_sign(x) == s@.subrange(start as int, to as int),
            forall|k: int| start <= k < i ==> is_digit_char(#[trigger] s@[k]),
        decreases to - i,
    {
        if !crate::text::digit_char(s.get_char(i)) {
            assert(!all_digits(strip_sign(x))) by {
                assert(strip_sign(x)[i - start] == s@[i as int]);
            }
            return false;
        }
        i = i + 1;
    }
    assert(all_digits(strip_sign(x))) by {
        assert(forall|k: int|
            0 <= k < strip_sign(x).len() ==> strip_sign(x)[k] == #[trigger] s@[start + k]);
    }
    true
}

/// Whether the standard float parser would accept this text.
fn is_float_str(s: &str) -> (r: bool)
    ensures
        r == is_float_text(s@),
{
    let len = s.unicode_len();
    let start: usize = if len > 0 && (s.get_char(0) == '+' || s.get_char(0) == '-') {
        1
    } else {
        0
    };
    let ghost b = strip_sign(s@);
    proof {
        if s@.len() > 0 && (s@[0] == '+' || s@[0] == '-') {
            assert(b =~= s@.subrange(1, s@.len() as int));
        } else {
            assert(b =~= s@.subrange(0, s@.len() as int));
        }
    }
    let body = s.substring_char(start, len);
    proof {
        assert(body@ == b);
    }
    if str_eq_ci(body, "inf") || str_eq_ci(body, "infinity") || str_eq_ci(body, "nan") {
        return true;
    }
    let e1 = find_char(body, 'e');
    let e2 = find_char(body, 'E');
    let marker: Option<usize> = match (e1, e2) {
        (Some(i), Some(j)) => if i <= j {
            Some(i)
        } else {
            Some(j)
        },
        (Some(i), None) => Some(i),
        (None, Some(j)) => Some(j),
        (None, None) => None,
    };
    let blen = body.unicode_len();
    match marker {
        Some(k) => {
            proof {
                assert(body@.subrange(0, k as int) =~= b.subrange(0, k as int));
                assert(body@.subrange(k as int + 1, body@.len() as int) =~= b.subrange(
                    k as int + 1,
                    b.len() as int,
                ));
            }
            check_mantissa(body, 0, k) && check_exp(body, k + 1, blen)
        },
        None => {
            proof {
                assert(body@.subrange(0, body@.len() as int) =~= b);
            }
            check_mantissa(body, 0, blen)
        },
    }
}

/// Exactly which optional score a margin text parses to.
pub open spec fn score_matches(s: Seq<char>, r: Option<Score>) -> bool {
    let t = trim_spec(s);
    if t.len() == 0 {
        r is None
    } else if t == "r"@ || t == "resign"@ {
        r == Some(Score::Resignation)
    } else if t == "t"@ || t == "time"@ {
        r == Some(Score::Timeout)
    } else if t == "f"@ || t == "forfeit"@ {
        r == Some(Score::Forfeit)
    } else if is_float_text(t) {
        r matches Some(Score::Points(c)) && c@ == t
    } else {
        r is None
    }
}

/// Parses the margin that follows a winner marker: a resignation, timeout
/// or forfeit word, or a numeric score kept as text.
fn parse_score_str(score_str: &str) -> (r: Option<Score>)
    ensures
        score_matches(score_str@, r),
{
    let t = trim_str(score_str);
    if t.unicode_len() == 0 {
        return None;
    }
    if str_eq(t, "r") || str_eq(t, "resign") {
        Some(Score::Resignation)
    } else if str_eq(t, "t") || str_eq(t, "time") {
        Some(Score::Timeout)
    } else if str_eq(t, "f") || str_eq(t, "forfeit") {
        Some(Score::Forfeit)
    } else if is_float_str(t) {
        Some(Score::Points(t.to_owned()))
    } else {
        None
    }
}

/// The note between the first pair of round brackets, else the first pair
/// of curly brackets; empty when the closing bracket is missing.
pub open spec fn spec_note(s: Seq<char>) -> Seq<char> {
    if s.contains('(') {
        let a = s.index_of_first('(').unwrap();
        let tail = s.subrange(a + 1, s.len() as int);
        if tail.contains(')') {
            trim_spec(tail.subrange(0, tail.index_of_first(')').unwrap()))
        } else {
            Seq::empty()
        }
    } else if s.contains('{') {
        let a = s.index_of_first('{').unwrap();
        let tail = s.subrange(a + 1, s.len() as int);
        if tail.contains('}') {
            trim_spec(tail.subrange(0, tail.index_of_first('}').unwrap()))
        } else {
            Seq::empty()
        }
    } else {
        Seq::empty()
    }
}

/// The examined text: everything before the first opening bracket, trimmed
/// and case-folded.
pub open spec fn spec_result_prefix(s: Seq<char>) -> Seq<char> {
    let cut = match (s.index_of_first('('), s.index_of_first('{')) {
        (Some(i), Some(j)) => if i <= j {
            i
        } else {
            j
        },
        (Some(i), None) => i,
        (None, Some(j)) => j,
        (None, None) => s.len() as int,
    };
    lower_of(trim_spec(s.subrange(0, cut)))
}

/// Exactly which result a given text parses to, arm for arm.
pub open spec fn result_matches(s: Seq<char>, r: GameResult) -> bool {
    let note = spec_note(s);
    let ps = spec_result_prefix(s);
    if ps == "\u{9ed1}\u{4e2d}\u{76d8}\u{80dc}"@ || ps == "\u{9ed1}\u{4e2d}\u{62bc}\u{80dc}"@ || ps
        == "\u{9ed1}\u{68cb}\u{4e2d}\u{76d8}\u{80dc}"@ {
        r matches GameResult::Player(c, sc, n) && c == Color::Black && sc == Some(
            Score::Resignation,
        ) && n@ == note
    } else if ps == "\u{767d}\u{4e2d}\u{76d8}\u{80dc}"@ || ps == "\u{767d}\u{4e2d}\u{62bc}\u{80dc}"@
        || ps == "\u{767d}\u{68cb}\u{4e2d}\u{76d8}\u{80dc}"@ {
        r matches GameResult::Player(c, sc, n) && c == Color::White && sc == Some(
            Score::Resignation,
        ) && n@ == note
    } else if ps == "\u{9ed1}\u{80dc}"@ {
        r matches GameResult::Player(c, sc, n) && c == Color::Black && sc is None && n@ == note
    } else if ps == "\u{767d}\u{80dc}"@ {
        r matches GameResult::Player(c, sc, n) && c == Color::White && sc is None && n@ == note
    } else if ps.contains('\u{9ed1}') && ps.contains('\u{80dc}') {
        r matches GameResult::Player(c, sc, n) && c == Color::Black && sc is None && n@ == ps
    } else if ps.contains('\u{767d}') && ps.contains('\u{80dc}') {
        r matches GameResult::Player(c, sc, n) && c == Color::White && sc is None && n@ == ps
    } else if ps == "0"@ || ps == "draw"@ || ps == "jigo"@ || ps == "\u{548c}\u{68cb}"@ {
        r == GameResult::Draw
    } else if ps == "\u{6253}\u{6302}"@ || ps == "\u{6253}\u{639b}"@ || ps == "game suspended"@
        || ps == "void"@ {
        r == GameResult::Void
    } else if ps == "\u{4e0d}\u{8a73}"@ || ps == "?"@ {
        r matches GameResult::Unknown(n) && n@ == note
    } else if has_prefix(ps, "b+"@) {
        r matches GameResult::Player(c, sc, n) && c == Color::Black && score_matches(
            ps.subrange(2, ps.len() as int),
            sc,
        ) && n@ == note
    } else if has_prefix(ps, "w+"@) {
        r matches GameResult::Player(c, sc, n) && c == Color::White && score_matches(
            ps.subrange(2, ps.len() as int),
            sc,
        ) && n@ == note
    } else if has_prefix(ps, "b"@) {
        r matches GameResult::Player(c, sc, n) && c == Color::Black && score_matches(
            ps.subrange(1, ps.len() as int),
            sc,
        ) && n@ == note
    } else if has_prefix(ps, "w"@) {
        r matches GameResult::Player(c, sc, n) && c == Color::White && score_matches(
            ps.subrange(1, ps.len() as int),
            sc,
        ) && n@ == note
    } else {
        r matches GameResult::Unknown(n) && n@ == ps
    }
}

/// Extracts the bracketed note of a result text.
fn note_str(s: &str) -> (r: String)
    ensures
        r@ == spec_note(s@),
{
    let len = s.unicode_len();
    match find_char(s, '(') {
        Some(a) => {
            let tail = s.substring_char(a + 1, len);
            match find_char(tail, ')') {
                Some(e) => trim_str(tail.substring_char(0, e)).to_owned(),
                None => String::new(),
            }
        },
        None => {
            match find_char(s, '{') {
                Some(a) => {
                    let tail = s.substring_char(a + 1, len);
                    match find_char(tail, '}') {
                        Some(e) => trim_str(tail.substring_char(0, e)).to_owned(),
                        None => String::new(),
                    }
                },
                None => String::new(),
            }
        },
    }
}

/// Parses a game result: Chinese win conventions, draw and void words, and
/// the standard B+/W+ notation with an optional margin; anything else is
/// kept as unrecognized text.
pub fn parse_sgf_result(result_str: &str) -> (r: GameResult)
    ensures
        result_matches(result_str@, r),
{
    let note = note_str(result_str);
    let len = result_str.unicode_len();
    let p_open = find_char(result_str, '(');
    let b_open = find_char(result_str, '{');
    let cut: usize = match (p_open, b_open) {
        (Some(i), Some(j)) => if i <= j {
            i
        } else {
            j
        },
        (Some(i), None) => i,
        (None, Some(j)) => j,
        (None, None) => len,
    };
    let folded = lowercase(trim_str(result_str.substring_char(0, cut)));
    let ps = folded.as_str();
    let pslen = ps.unicode_len();
    if str_eq(ps, "\u{9ed1}\u{4e2d}\u{76d8}\u{80dc}") || str_eq(ps, "\u{9ed1}\u{4e2d}\u{62bc}\u{80dc}")
        || str_eq(ps, "\u{9ed1}\u{68cb}\u{4e2d}\u{76d8}\u{80dc}") {
        GameResult::Player(Color::Black, Some(Score::Resignation), note)
    } else if str_eq(ps, "\u{767d}\u{4e2d}\u{76d8}\u{80dc}") || str_eq(
        ps,
        "\u{767d}\u{4e2d}\u{62bc}\u{80dc}",
    ) || str_eq(ps, "\u{767d}\u{68cb}\u{4e2d}\u{76d8}\u{80dc}") {
        GameResult::Player(Color::White, Some(Score::Resignation), note)
    } else if str_eq(ps, "\u{9ed1}\u{80dc}") {
        GameResult::Player(Color::Black, None, note)
    } else if str_eq(ps, "\u{767d}\u{80dc}") {
        GameResult::Player(Color::White, None, note)
    } else if find_char(ps, '\u{9ed1}').is_some() && find_char(ps, '\u{80dc}').is_some() {
        GameResult::Player(Color::Black, None, folded)
    } else if find_char(ps, '\u{767d}').is_some() && find_char(ps, '\u{80dc}').is_some() {
        GameResult::Player(Color::White, None, folded)
    } else if str_eq(ps, "0") || str_eq(ps, "draw") || str_eq(ps, "jigo") || str_eq(
        ps,
        "\u{548c}\u{68cb}",
    ) {
        GameResult::Draw
    } else if str_eq(ps, "\u{6253}\u{6302}") || str_eq(ps, "\u{6253}\u{639b}") || str_eq(
        ps,
        "game suspended",
    ) || str_eq(ps, "void") {
        GameResult::Void
    } else if str_eq(ps, "\u{4e0d}\u{8a73}") || str_eq(ps, "?") {
        GameResult::Unknown(note)
    } else if str_has_prefix(ps, "b+") {
        proof {
            reveal_strlit("b+");
        }
        let score = parse_score_str(ps.substring_char(2, pslen));
        GameResult::Player(Color::Black, score, note)
    } else if str_has_prefix(ps, "w+") {
        proof {
            reveal_strlit("w+");
        }
        let score = parse_score_str(ps.substring_char(2, pslen));
        GameResult::Player(Color::White, score, note)
    } else if str_has_prefix(ps, "b") {
        proof {
            reveal_strlit("b");
        }
        let score = parse_score_str(ps.substring_char(1, pslen));
        GameResult::Player(Color::Black, score, note)
    } else if str_has_prefix(ps, "w") {
        proof {
            reveal_strlit("w");
        }
        let score = parse_score_str(ps.substring_char(1, pslen));
        GameResult::Player(Color::White, score, note)
    } else {
        GameResult::Unknown(folded)
    }
}

} // verus!
