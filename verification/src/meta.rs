//! Game metadata: dates, ranks, rule sets and players, with total parsers
//! that never fail — unrecognized text lands in a Custom or Unknown variant.
use crate::text::{
    is_ws_char,
    before_char, before_ws, digit_char, digits_value, is_digit_char, leading_digits,
    lemma_before_ws_index, lemma_leading_digits_index, lower_of, lowercase, spec_parse_uint,
    parse_uint, str_eq, trim_spec, trim_str, ws_char,
};
use vstd::prelude::*;

verus! {

/// A game date of decreasing precision, or free-form text.
#[derive(Debug, Clone, PartialEq, Eq, Hash, PartialOrd, Ord)]
pub enum SgfDate {
    YearMonthDay(u16, u8, u8),
    YearMonth(u16, u8),
    Year(u16),
    Custom(String),
}

/// A player's strength: amateur kyu or dan, professional dan, or free text.
#[derive(Debug, Clone, PartialEq, Eq)]
pub enum Rank {
    Kyu(u8),
    Dan(u8),
    Pro(u8),
    Custom(String),
}

/// The rule set a game was played under.
#[derive(Debug, Clone, PartialEq, Eq)]
pub enum Rules {
    Chinese,
    Japanese,
    Korean,
    Ing,
    Custom(String),
}

/// A player resolved to a numeric id, or an unresolved raw name.
#[derive(Debug, Clone, PartialEq, Eq)]
pub enum Player {
    Id(i16, String),
    Unknown(String),
}

impl SgfDate {
    /// An equal date value.
    pub fn duplicate(&self) -> (r: SgfDate)
        ensures
            r == *self,
    {
        match self {
            SgfDate::YearMonthDay(y, m, d) => SgfDate::YearMonthDay(*y, *m, *d),
            SgfDate::YearMonth(y, m) => SgfDate::YearMonth(*y, *m),
            SgfDate::Year(y) => SgfDate::Year(*y),
            SgfDate::Custom(s) => SgfDate::Custom(s.clone()),
        }
    }
}

impl Rank {
    /// An equal rank value.
    pub fn duplicate(&self) -> (r: Rank)
        ensures
            r == *self,
    {
        match self {
            Rank::Kyu(n) => Rank::Kyu(*n),
            Rank::Dan(n) => Rank::Dan(*n),
            Rank::Pro(n) => Rank::Pro(*n),
            Rank::Custom(s) => Rank::Custom(s.clone()),
        }
    }
}

impl Rules {
    /// An equal rules value.
    pub fn duplicate(&self) -> (r: Rules)
        ensures
            r == *self,
    {
        match self {
            Rules::Chinese => Rules::Chinese,
            Rules::Japanese => Rules::Japanese,
            Rules::Korean => Rules::Korean,
            Rules::Ing => Rules::Ing,
            Rules::Custom(s) => Rules::Custom(s.clone()),
        }
    }
}

impl Player {
    /// An equal player value.
    pub fn duplicate(&self) -> (r: Player)
        ensures
            r == *self,
    {
        match self {
            Player::Id(id, name) => Player::Id(*id, name.clone()),
            Player::Unknown(name) => Player::Unknown(name.clone()),
        }
    }
}

/// The single date token the parser examines: the trimmed text up to the
/// first whitespace, then up to the first comma.
pub open spec fn date_token(s: Seq<char>) -> Seq<char> {
    before_char(before_ws(trim_spec(s)), ',')
}

/// Exactly which date a given text parses to.
pub open spec fn date_matches(s: Seq<char>, r: SgfDate) -> bool {
    let d = date_token(s);
    if d.contains('-') {
        let dash = d.index_of_first('-').unwrap();
        let ys = d.subrange(0, dash);
        let rest = d.subrange(dash + 1, d.len() as int);
        let y = spec_parse_uint(ys, 65535);
        if y is Some && rest.contains('-') {
            let dash2 = rest.index_of_first('-').unwrap();
            let m = spec_parse_uint(rest.subrange(0, dash2), 255);
            let dd = spec_parse_uint(rest.subrange(dash2 + 1, rest.len() as int), 255);
            if m is Some && dd is Some && 1 <= m.unwrap() <= 12 && 1 <= dd.unwrap() <= 31 {
                r == SgfDate::YearMonthDay(y.unwrap() as u16, m.unwrap() as u8, dd.unwrap() as u8)
            } else {
                date_matches_fallback(d, r)
            }
        } else if y is Some && !rest.contains('-') {
            let m = spec_parse_uint(rest, 255);
            if m is Some && 1 <= m.unwrap() <= 12 {
                r == SgfDate::YearMonth(y.unwrap() as u16, m.unwrap() as u8)
            } else {
                date_matches_fallback(d, r)
            }
        } else {
            date_matches_fallback(d, r)
        }
    } else {
        date_matches_fallback(d, r)
    }
}

/// The trailing cases shared by every failed structured parse: a bare
/// year, else the token kept as free-form text.
pub open spec fn date_matches_fallback(d: Seq<char>, r: SgfDate) -> bool {
    let y = spec_parse_uint(d, 65535);
    if y is Some {
        r == SgfDate::Year(y.unwrap() as u16)
    } else {
        r matches SgfDate::Custom(c) && c@ == d
    }
}

/// Splits the date token out of the raw text.
fn date_token_str<'a>(s: &'a str) -> (r: &'a str)
    ensures
        r@ == date_token(s@),
{
    let t = trim_str(s);
    let tlen = t.unicode_len();
    let mut i: usize = 0;
    while i < tlen && !ws_char(t.get_char(i))
        invariant
            tlen == t@.len(),
            i <= tlen,
            forall|k: int| 0 <= k < i ==> !is_ws_char(#[trigger] t@[k]),
        decreases tlen - i,
    {
        i = i + 1;
    }
    proof {
        lemma_before_ws_index(t@, i as int);
    }
    let d1 = t.substring_char(0, i);
    match crate::text::find_char(d1, ',') {
        Some(p) => d1.substring_char(0, p),
        None => {
            proof {
                assert(before_char(d1@, ',') == d1@);
            }
            d1
        },
    }
}

/// Parses a date: YYYY-MM-DD, then YYYY-MM, then YYYY, else the token is
/// kept as written.
pub fn parse_sgf_date(date_str: &str) -> (r: SgfDate)
    ensures
        date_matches(date_str@, r),
{
    let d = date_token_str(date_str);
    let dlen = d.unicode_len();
    match crate::text::find_char(d, '-') {
        Some(dash) => {
            let ys = d.substring_char(0, dash);
            let rest = d.substring_char(dash + 1, dlen);
            let restlen = rest.unicode_len();
            match parse_uint(ys, 65535) {
                Some(y) => {
                    match crate::text::find_char(rest, '-') {
                        Some(dash2) => {
                            let ms = rest.substring_char(0, dash2);
                            let ds = rest.substring_char(dash2 + 1, restlen);
                            match (parse_uint(ms, 255), parse_uint(ds, 255)) {
                                (Some(m), Some(dd)) => {
                                    if 1 <= m && m <= 12 && 1 <= dd && dd <= 31 {
                                        SgfDate::YearMonthDay(y as u16, m as u8, dd as u8)
                                    } else {
                                        date_fallback(d)
                                    }
                                },
                                _ => date_fallback(d),
                            }
                        },
                        None => {
                            match parse_uint(rest, 255) {
                                Some(m) => {
                                    if 1 <= m && m <= 12 {
                                        SgfDate::YearMonth(y as u16, m as u8)
                                    } else {
                                        date_fallback(d)
                                    }
                                },
                                None => date_fallback(d),
                            }
                        },
                    }
                },
                None => date_fallback(d),
            }
        },
        None => date_fallback(d),
    }
}

/// The bare-year and free-form endings of date parsing.
fn date_fallback(d: &str) -> (r: SgfDate)
    ensures
        date_matches_fallback(d@, r),
{
    match parse_uint(d, 65535) {
        Some(y) => SgfDate::Year(y as u16),
        None => SgfDate::Custom(d.to_owned()),
    }
}

/// Exactly which rank a given text parses to: a leading digit run, then a
/// folded grade word; anything else is kept as the trimmed original.
pub open spec fn rank_matches(s: Seq<char>, r: Rank) -> bool {
    let t = trim_spec(s);
    let pos = leading_digits(t);
    if t.len() == 0 || pos == t.len() {
        r matches Rank::Custom(c) && c@ == t
    } else {
        let num = spec_parse_uint(t.subrange(0, pos), 255);
        if num is Some {
            let rest = lower_of(trim_spec(t.subrange(pos, t.len() as int)));
            if rest == "d"@ || rest == "dan"@ {
                r == Rank::Dan(num.unwrap() as u8)
            } else if rest == "k"@ || rest == "kyu"@ {
                r == Rank::Kyu(num.unwrap() as u8)
            } else if rest == "p"@ || rest == "pro"@ {
                r == Rank::Pro(num.unwrap() as u8)
            } else {
                r matches Rank::Custom(c) && c@ == t
            }
        } else {
            r matches Rank::Custom(c) && c@ == t
        }
    }
}

/// Parses a rank such as "3d", "9 Pro" or "30kyu"; unrecognized text is
/// kept trimmed as written.
pub fn parse_rank(rank_str: &str) -> (r: Rank)
    ensures
        rank_matches(rank_str@, r),
{
    let t = trim_str(rank_str);
    let tlen = t.unicode_len();
    let mut pos: usize = 0;
    while pos < tlen && digit_char(t.get_char(pos))
        invariant
            tlen == t@.len(),
            pos <= tlen,
            forall|k: int| 0 <= k < pos ==> is_digit_char(#[trigger] t@[k]),
        decreases tlen - pos,
    {
        pos = pos + 1;
    }
    proof {
        lemma_leading_digits_index(t@, pos as int);
    }
    if tlen == 0 || pos == tlen {
        return Rank::Custom(t.to_owned());
    }
    let numstr = t.substring_char(0, pos);
    match parse_uint(numstr, 255) {
        Some(num) => {
            let rest_raw = t.substring_char(pos, tlen);
            let folded = lowercase(trim_str(rest_raw));
            let rest = folded.as_str();
            if str_eq(rest, "d") || str_eq(rest, "dan") {
                Rank::Dan(num as u8)
            } else if str_eq(rest, "k") || str_eq(rest, "kyu") {
                Rank::Kyu(num as u8)
            } else if str_eq(rest, "p") || str_eq(rest, "pro") {
                Rank::Pro(num as u8)
            } else {
                Rank::Custom(t.to_owned())
            }
        },
        None => Rank::Custom(t.to_owned()),
    }
}

/// Exactly which rule set a given folded text names.
pub open spec fn rules_matches(s: Seq<char>, r: Rules) -> bool {
    let t = lower_of(trim_spec(s));
    if crate::text::has_prefix(t, "chin"@) || t == "cn"@ || t == "chn"@ {
        r == Rules::Chinese
    } else if crate::text::has_prefix(t, "japan"@) || t == "jp"@ || t == "jpn"@ {
        r == Rules::Japanese
    } else if crate::text::has_prefix(t, "korea"@) || t == "kr"@ || t == "kor"@ {
        r == Rules::Korean
    } else if crate::text::has_prefix(t, "ing"@) {
        r == Rules::Ing
    } else {
        r matches Rules::Custom(c) && c@ == t
    }
}

/// Parses a rule-set name, case-insensitively; anything unrecognized is
/// kept as the folded text.
pub fn parse_rules(rules_str: &str) -> (r: Rules)
    ensures
        rules_matches(rules_str@, r),
{
    let folded = lowercase(trim_str(rules_str));
    let t = folded.as_str();
    if crate::text::str_has_prefix(t, "chin") || str_eq(t, "cn") || str_eq(t, "chn") {
        Rules::Chinese
    } else if crate::text::str_has_prefix(t, "japan") || str_eq(t, "jp") || str_eq(t, "jpn") {
        Rules::Japanese
    } else if crate::text::str_has_prefix(t, "korea") || str_eq(t, "kr") || str_eq(t, "kor") {
        Rules::Korean
    } else if crate::text::str_has_prefix(t, "ing") {
        Rules::Ing
    } else {
        Rules::Custom(folded)
    }
}

pub open spec fn digit_char_of(d: int) -> char {
    if d == 0 {
        '0'
    } else if d == 1 {
        '1'
    } else if d == 2 {
        '2'
    } else if d == 3 {
        '3'
    } else if d == 4 {
        '4'
    } else if d == 5 {
        '5'
    } else if d == 6 {
        '6'
    } else if d == 7 {
        '7'
    } else if d == 8 {
        '8'
    } else {
        '9'
    }
}

/// The decimal text of a byte value, most significant digit first.
pub open spec fn decimal_of(n: int) -> Seq<char> {
    if n < 10 {
        seq![digit_char_of(n)]
    } else if n < 100 {
        seq![digit_char_of(n / 10), digit_char_of(n % 10)]
    } else {
        seq![digit_char_of(n / 100), digit_char_of((n / 10) % 10), digit_char_of(n % 10)]
    }
}

fn digit_str(d: u8) -> (r: &'static str)
    requires
        d < 10,
    ensures
        r@ == seq![digit_char_of(d as int)],
{
    let r: &'static str = if d == 0 {
        "0"
    } else if d == 1 {
        "1"
    } else if d == 2 {
        "2"
    } else if d == 3 {
        "3"
    } else if d == 4 {
        "4"
    } else if d == 5 {
        "5"
    } else if d == 6 {
        "6"
    } else if d == 7 {
        "7"
    } else if d == 8 {
        "8"
    } else {
        "9"
    };
    proof {
        reveal_strlit("0");
        reveal_strlit("1");
        reveal_strlit("2");
        reveal_strlit("3");
        reveal_strlit("4");
        reveal_strlit("5");
        reveal_strlit("6");
        reveal_strlit("7");
        reveal_strlit("8");
        reveal_strlit("9");
        assert(r@ =~= seq![digit_char_of(d as int)]);
    }
    r
}

/// The decimal text of a byte value.
fn u8_text(n: u8) -> (r: String)
    ensures
        r@ == decimal_of(n as int),
{
    if n < 10 {
        let r = digit_str(n).to_owned();
        proof {
            assert(r@ =~= decimal_of(n as int));
        }
        r
    } else if n < 100 {
        let mut r = digit_str(n / 10).to_owned();
        r.append(digit_str(n % 10));
        proof {
            assert(r@ =~= decimal_of(n as int));
        }
        r
    } else {
        let mut r = digit_str(n / 100).to_owned();
        r.append(digit_str(n / 10 % 10));
        r.append(digit_str(n % 10));
        proof {
            assert(r@ =~= decimal_of(n as int));
        }
        r
    }
}

impl Rank {
    /// The display text of a rank: the grade number with its letter, "k",
    /// "d" or "P", or the custom text as written.
    pub fn text(&self) -> (r: String)
        ensures
            match self {
                Rank::Kyu(n) => r@ == decimal_of(*n as int) + "k"@,
                Rank::Dan(n) => r@ == decimal_of(*n as int) + "d"@,
                Rank::Pro(n) => r@ == decimal_of(*n as int) + "P"@,
                Rank::Custom(s) => r@ == s@,
            },
    {
        match self {
            Rank::Kyu(n) => {
                let mut r = u8_text(*n);
                r.append("k");
                r
            },
            Rank::Dan(n) => {
                let mut r = u8_text(*n);
                r.append("d");
                r
            },
            Rank::Pro(n) => {
                let mut r = u8_text(*n);
                r.append("P");
                r
            },
            Rank::Custom(s) => s.clone(),
        }
    }
}

} // verus!
