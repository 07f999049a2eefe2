//! The token stream of the Chinese text-normalization tagger,
//! `name { key: "value" ... }`, parsed and written back with each
//! category's fields in the order its verbalizer expects.

use vstd::prelude::*;

use crate::chars::{append_chars, append_str, chars_of, decimal_chars, decimal_digits, spec_is_ascii_alphanumeric, string_from_chars};
use crate::unicode::{is_whitespace, spec_is_whitespace};

verus! {

/// Why text normalization failed.
#[derive(Debug, Clone, PartialEq, Eq)]
pub enum TextNormalizationError {
    FstLoad { resource: String, message: String },
    FstOperation(String),
    TokenParse(String),
}

/// The end of the whitespace run starting at `i`.
pub open spec fn ws_end(s: Seq<char>, i: int) -> int
    decreases s.len() - i,
{
    if 0 <= i < s.len() && spec_is_whitespace(s[i]) {
        ws_end(s, i + 1)
    } else {
        i
    }
}

/// A character of a field or token name.
pub open spec fn is_name_char(c: char) -> bool {
    spec_is_ascii_alphanumeric(c) || c == '_'
}

/// A whitespace run ends at or after its start.
pub proof fn lemma_ws_end_ge(s: Seq<char>, i: int)
    ensures
        ws_end(s, i) >= i,
        ws_end(s, i) >= 0 ==> ws_end(s, i) <= s.len() || ws_end(s, i) == i,
        0 <= i <= s.len() ==> ws_end(s, i) <= s.len(),
    decreases s.len() - i,
{
    if 0 <= i < s.len() && spec_is_whitespace(s[i]) {
        lemma_ws_end_ge(s, i + 1);
    }
}

/// A name ends at or after its start.
pub proof fn lemma_name_end_ge(s: Seq<char>, i: int)
    ensures
        name_end(s, i) >= i,
        0 <= i <= s.len() ==> name_end(s, i) <= s.len(),
    decreases s.len() - i,
{
    if 0 <= i < s.len() && is_name_char(s[i]) {
        lemma_name_end_ge(s, i + 1);
    }
}

/// The end of the name starting at `i`.
pub open spec fn name_end(s: Seq<char>, i: int) -> int
    decreases s.len() - i,
{
    if 0 <= i < s.len() && is_name_char(s[i]) {
        name_end(s, i + 1)
    } else {
        i
    }
}

/// The position of the closing quote of a value whose text starts at `i`
/// (a backslash keeps the next character in the value), if any.
pub open spec fn closing_quote(s: Seq<char>, i: int, escaped: bool) -> Option<int>
    decreases s.len() - i,
{
    if i < 0 || i >= s.len() {
        None
    } else if escaped {
        closing_quote(s, i + 1, false)
    } else if s[i] == '\\' {
        closing_quote(s, i + 1, true)
    } else if s[i] == '"' {
        Some(i)
    } else {
        closing_quote(s, i + 1, false)
    }
}

/// Why the token stream did not parse.
#[derive(Debug, Clone, Copy, PartialEq, Eq, Structural)]
pub enum TokenParseFailure {
    /// No token name at this character.
    ExpectedName(usize),
    /// No field name at this character.
    ExpectedField(usize),
    /// Not the expected character at this one.
    Expected(char, usize),
    /// A quoted value runs to the end of the text.
    Unterminated,
}

/// A token's fields, in order, as written.
pub type Fields = Seq<(Seq<char>, Seq<char>)>;

/// The fields from `i` up to and past the closing brace, and where the
/// text continues.
pub open spec fn parse_fields(s: Seq<char>, i: int) -> Result<(Fields, int), TokenParseFailure>
    decreases s.len() - i,
{
    let j = ws_end(s, i);
    if !(0 <= i <= j <= s.len()) {
        Err(TokenParseFailure::Unterminated)
    } else if j < s.len() && s[j] == '}' {
        Ok((Seq::empty(), j + 1))
    } else {
        let ke = name_end(s, j);
        if ke == j {
            Err(TokenParseFailure::ExpectedField(j as usize))
        } else {
            let c = ws_end(s, ke);
            if !(c < s.len() && s[c] == ':') {
                Err(TokenParseFailure::Expected(':', c as usize))
            } else {
                let v = ws_end(s, c + 1);
                if !(v < s.len() && s[v] == '"') {
                    Err(TokenParseFailure::Expected('"', v as usize))
                } else {
                    match closing_quote(s, v + 1, false) {
                        None => Err(TokenParseFailure::Unterminated),
                        Some(q) => if q < v + 1 || q >= s.len() {
                            Err(TokenParseFailure::Unterminated)
                        } else {
                            proof {
                                lemma_name_end_ge(s, j);
                                lemma_ws_end_ge(s, ke);
                                lemma_ws_end_ge(s, c + 1);
                            }
                            match parse_fields(s, q + 1) {
                                Err(e) => Err(e),
                                Ok((rest, end)) => Ok(
                                    (seq![(s.subrange(j, ke), s.subrange(v + 1, q))] + rest, end),
                                ),
                            }
                        },
                    }
                }
            }
        }
    }
}

/// The tokens from `i` to the end of the text.
pub open spec fn parse_tokens(s: Seq<char>, i: int) -> Result<Seq<(Seq<char>, Fields)>, TokenParseFailure>
    decreases s.len() - i,
{
    let j = ws_end(s, i);
    if !(0 <= i <= j <= s.len()) {
        Err(TokenParseFailure::Unterminated)
    } else if j == s.len() {
        Ok(Seq::empty())
    } else {
        let ne = name_end(s, j);
        if ne == j {
            Err(TokenParseFailure::ExpectedName(j as usize))
        } else {
            let b = ws_end(s, ne);
            if !(b < s.len() && s[b] == '{') {
                Err(TokenParseFailure::Expected('{', b as usize))
            } else {
                match parse_fields(s, b + 1) {
                    Err(e) => Err(e),
                    Ok((fields, end)) => if end <= i || end > s.len() {
                        Err(TokenParseFailure::Unterminated)
                    } else {
                        match parse_tokens(s, end) {
                            Err(e) => Err(e),
                            Ok(rest) => Ok(seq![(s.subrange(j, ne), fields)] + rest),
                        }
                    },
                }
            }
        }
    }
}

/// The message of a parse failure, as the error carries it.
pub open spec fn failure_message(f: TokenParseFailure) -> Seq<char> {
    match f {
        TokenParseFailure::ExpectedName(i) => "expected token name at character "@ + decimal_digits(i as nat),
        TokenParseFailure::ExpectedField(i) => "expected field name at character "@ + decimal_digits(i as nat),
        TokenParseFailure::Expected(c, i) => seq!['e', 'x', 'p', 'e', 'c', 't', 'e', 'd', ' ', '\'', c, '\'']
            + " at character "@ + decimal_digits(i as nat),
        TokenParseFailure::Unterminated => "unterminated quoted value"@,
    }
}

/// The error for a parse failure.
pub fn failure_error(f: TokenParseFailure) -> (e: TextNormalizationError)
    ensures
        e matches TextNormalizationError::TokenParse(m) && m@ == failure_message(f),
{
    let mut v: Vec<char>;
    match f {
        TokenParseFailure::ExpectedName(i) => {
            v = chars_of("expected token name at character ");
            let digits = decimal_chars(i as u64);
            append_chars(&mut v, digits.as_slice());
        },
        TokenParseFailure::ExpectedField(i) => {
            v = chars_of("expected field name at character ");
            let digits = decimal_chars(i as u64);
            append_chars(&mut v, digits.as_slice());
        },
        TokenParseFailure::Expected(c, i) => {
            v = Vec::new();
            append_str(&mut v, "expected ");
            v.push('\'');
            v.push(c);
            v.push('\'');
            append_str(&mut v, " at character ");
            let digits = decimal_chars(i as u64);
            append_chars(&mut v, digits.as_slice());
            proof {
                reveal_strlit("expected ");
                assert(v@ =~= seq!['e', 'x', 'p', 'e', 'c', 't', 'e', 'd', ' ', '\'', c, '\''] + " at character "@
                    + decimal_digits(i as nat));
            }
        },
        TokenParseFailure::Unterminated => {
            v = chars_of("unterminated quoted value");
        },
    }
    TextNormalizationError::TokenParse(string_from_chars(v.as_slice()))
}

/// Skips whitespace from `i`.
fn skip_whitespace(chars: &[char], i: usize) -> (j: usize)
    requires
        i <= chars@.len(),
    ensures
        j == ws_end(chars@, i as int),
        i <= j <= chars@.len(),
{
    let mut j = i;
    while j < chars.len() && is_whitespace(chars[j])
        invariant
            i <= j <= chars@.len(),
            ws_end(chars@, i as int) == ws_end(chars@, j as int),
        decreases chars@.len() - j,
    {
        j = j + 1;
    }
    j
}

/// Reads a name (ASCII letters, digits, `_`) from `i`.
fn parse_identifier(chars: &[char], i: usize) -> (out: (String, usize))
    requires
        i <= chars@.len(),
    ensures
        out.1 == name_end(chars@, i as int),
        i <= out.1 <= chars@.len(),
        out.0@ == chars@.subrange(i as int, out.1 as int),
{
    let mut j = i;
    while j < chars.len() && ((chars[j] >= 'a' && chars[j] <= 'z') || (chars[j] >= 'A' && chars[j] <= 'Z') || (chars[j]
        >= '0' && chars[j] <= '9') || chars[j] == '_')
        invariant
            i <= j <= chars@.len(),
            name_end(chars@, i as int) == name_end(chars@, j as int),
        decreases chars@.len() - j,
    {
        j = j + 1;
    }
    let name = crate::chars::copy_range(chars, i, j);
    (string_from_chars(name.as_slice()), j)
}

/// The closing quote of a value whose text starts at `i`.
fn find_closing_quote(chars: &[char], i: usize) -> (q: Option<usize>)
    requires
        i <= chars@.len(),
    ensures
        match closing_quote(chars@, i as int, false) {
            Some(p) => q == Some(p as usize) && i <= p < chars@.len(),
            None => q is None,
        },
{
    let mut j = i;
    let mut escaped = false;
    while j < chars.len()
        invariant
            i <= j <= chars@.len(),
            closing_quote(chars@, i as int, false) == closing_quote(chars@, j as int, escaped),
        decreases chars@.len() - j,
    {
        let c = chars[j];
        if escaped {
            escaped = false;
        } else if c == '\\' {
            escaped = true;
        } else if c == '"' {
            return Some(j);
        }
        j = j + 1;
    }
    None
}

/// Parses the fields of a token from `i` through its closing brace.
fn parse_fields_exec(chars: &[char], i: usize) -> (result: Result<(Vec<(String, String)>, usize), TokenParseFailure>)
    requires
        i <= chars@.len(),
    ensures
        match parse_fields(chars@, i as int) {
            Ok((fields, end)) => result matches Ok(r) && field_views(r.0@) == fields && r.1 == end && i < end
                <= chars@.len(),
            Err(f) => result == Err::<(Vec<(String, String)>, usize), TokenParseFailure>(f),
        },
    decreases chars@.len() - i,
{
    let j = skip_whitespace(chars, i);
    if j < chars.len() && chars[j] == '}' {
        return Ok((Vec::new(), j + 1));
    }
    let (key, ke) = parse_identifier(chars, j);
    if ke == j {
        return Err(TokenParseFailure::ExpectedField(j));
    }
    let c = skip_whitespace(chars, ke);
    if !(c < chars.len() && chars[c] == ':') {
        return Err(TokenParseFailure::Expected(':', c));
    }
    let v = skip_whitespace(chars, c + 1);
    if !(v < chars.len() && chars[v] == '"') {
        return Err(TokenParseFailure::Expected('"', v));
    }
    match find_closing_quote(chars, v + 1) {
        None => Err(TokenParseFailure::Unterminated),
        Some(q) => {
            let value = crate::chars::copy_range(chars, v + 1, q);
            match parse_fields_exec(chars, q + 1) {
                Err(e) => Err(e),
                Ok((rest, end)) => {
                    let mut fields: Vec<(String, String)> = Vec::new();
                    fields.push((key, string_from_chars(value.as_slice())));
                    let mut k: usize = 0;
                    let ghost first = fields@;
                    while k < rest.len()
                        invariant
                            k <= rest@.len(),
                            fields@ == first + rest@.take(k as int),
                        decreases rest@.len() - k,
                    {
                        fields.push((rest[k].0.clone(), rest[k].1.clone()));
                        assert(fields@ =~= first + rest@.take(k + 1));
                        k = k + 1;
                    }
                    proof {
                        assert(rest@.take(rest@.len() as int) =~= rest@);
                        assert(field_views(fields@) =~= seq![(chars@.subrange(j as int, ke as int), chars@.subrange(v + 1, q as int))] + field_views(rest@));
                    }
                    Ok((fields, end))
                },
            }
        },
    }
}

/// The names and values of a list of fields.
pub open spec fn field_views(fields: Seq<(String, String)>) -> Fields {
    fields.map_values(|f: (String, String)| (f.0@, f.1@))
}

/// One token of the tagger's output: its category and its fields in the
/// order written.
#[derive(Debug, Clone)]
pub struct TaggedToken {
    pub name: String,
    pub fields: Vec<(String, String)>,
}

/// Parses every token from `i` to the end of the text.
fn parse_tokens_exec(chars: &[char], i: usize) -> (result: Result<Vec<TaggedToken>, TokenParseFailure>)
    requires
        i <= chars@.len(),
    ensures
        match parse_tokens(chars@, i as int) {
            Ok(tokens) => result matches Ok(r) && token_views(r@) == tokens,
            Err(f) => result == Err::<Vec<TaggedToken>, TokenParseFailure>(f),
        },
    decreases chars@.len() - i,
{
    let j = skip_whitespace(chars, i);
    if j == chars.len() {
        assert(token_views(Seq::<TaggedToken>::empty()) =~= Seq::empty());
        return Ok(Vec::new());
    }
    let (name, ne) = parse_identifier(chars, j);
    if ne == j {
        return Err(TokenParseFailure::ExpectedName(j));
    }
    let b = skip_whitespace(chars, ne);
    if !(b < chars.len() && chars[b] == '{') {
        return Err(TokenParseFailure::Expected('{', b));
    }
    match parse_fields_exec(chars, b + 1) {
        Err(e) => Err(e),
        Ok((fields, end)) => {
            match parse_tokens_exec(chars, end) {
                Err(e) => Err(e),
                Ok(rest) => {
                    let mut tokens: Vec<TaggedToken> = Vec::new();
                    let ghost fields_view = field_views(fields@);
                    tokens.push(TaggedToken { name, fields });
                    let ghost first = token_views(tokens@);
                    let mut rest = rest;
                    let ghost rest_view = token_views(rest@);
                    let mut taken: Vec<TaggedToken> = Vec::new();
                    while rest.len() > 0
                        invariant
                            token_views(taken@) + token_views(rest@) == rest_view,
                        decreases rest@.len(),
                    {
                        let t = rest.remove(0);
                        let ghost before = taken@;
                        taken.push(t);
                        assert(token_views(taken@) =~= token_views(before).push(token_view(t)));
                    }
                    assert(token_views(taken@) =~= rest_view);
                    tokens.append(&mut taken);
                    assert(token_views(tokens@) =~= first + rest_view);
                    Ok(tokens)
                },
            }
        },
    }
}

/// The category and fields of a token.
pub open spec fn token_view(t: TaggedToken) -> (Seq<char>, Fields) {
    (t.name@, field_views(t.fields@))
}

/// The categories and fields of tokens.
pub open spec fn token_views(tokens: Seq<TaggedToken>) -> Seq<(Seq<char>, Fields)> {
    tokens.map_values(|t: TaggedToken| token_view(t))
}

/// Parses `name { key: "value" ... }` tokens separated by whitespace.
pub fn parse_tagged_tokens(input: &str) -> (result: Result<Vec<TaggedToken>, TextNormalizationError>)
    ensures
        match parse_tokens(input@, 0) {
            Ok(tokens) => result matches Ok(r) && token_views(r@) == tokens,
            Err(f) => result matches Err(TextNormalizationError::TokenParse(m)) && m@ == failure_message(f),
        },
{
    let chars = chars_of(input);
    match parse_tokens_exec(chars.as_slice(), 0) {
        Ok(tokens) => Ok(tokens),
        Err(f) => Err(failure_error(f)),
    }
}

/// The field order a verbalizer expects for a category, if it has one.
pub open spec fn preferred_order_spec(name: Seq<char>) -> Option<Seq<Seq<char>>> {
    if name == "date"@ {
        Some(seq!["year"@, "month"@, "day"@])
    } else if name == "fraction"@ {
        Some(seq!["denominator"@, "numerator"@])
    } else if name == "measure"@ {
        Some(seq!["denominator"@, "numerator"@, "value"@])
    } else if name == "money"@ {
        Some(seq!["value"@, "currency"@])
    } else if name == "time"@ {
        Some(seq!["noon"@, "hour"@, "minute"@, "second"@])
    } else {
        None
    }
}

fn owned_words(words: &[&str]) -> (out: Vec<String>)
    ensures
        out@.len() == words@.len(),
        forall|i: int| 0 <= i < words@.len() ==> (#[trigger] out@[i])@ == words@[i]@,
{
    let mut out: Vec<String> = Vec::new();
    let mut i: usize = 0;
    while i < words.len()
        invariant
            i <= words@.len(),
            out@.len() == i,
            forall|k: int| 0 <= k < i ==> (#[trigger] out@[k])@ == words@[k]@,
        decreases words@.len() - i,
    {
        out.push(words[i].to_owned());
        i = i + 1;
    }
    out
}

/// The texts of a list of strings.
pub open spec fn string_views(items: Seq<String>) -> Seq<Seq<char>> {
    items.map_values(|s: String| s@)
}

/// The field order a verbalizer expects for a category, if it has one.
pub fn preferred_order(name: &str) -> (order: Option<Vec<String>>)
    ensures
        match preferred_order_spec(name@) {
            Some(keys) => order matches Some(o) && string_views(o@) == keys,
            None => order is None,
        },
{
    let n = chars_of(name);
    let words: Option<Vec<&str>> = if crate::chars::chars_eq_str(n.as_slice(), "date") {
        Some(vec!["year", "month", "day"])
    } else if crate::chars::chars_eq_str(n.as_slice(), "fraction") {
        Some(vec!["denominator", "numerator"])
    } else if crate::chars::chars_eq_str(n.as_slice(), "measure") {
        Some(vec!["denominator", "numerator", "value"])
    } else if crate::chars::chars_eq_str(n.as_slice(), "money") {
        Some(vec!["value", "currency"])
    } else if crate::chars::chars_eq_str(n.as_slice(), "time") {
        Some(vec!["noon", "hour", "minute", "second"])
    } else {
        None
    };
    match words {
        Some(w) => {
            let o = owned_words(w.as_slice());
            assert(string_views(o@) =~= preferred_order_spec(name@)->0);
            Some(o)
        },
        None => None,
    }
}

/// The value of the last field named `key`.
pub open spec fn field_value(fields: Fields, key: Seq<char>) -> Option<Seq<char>>
    decreases fields.len(),
{
    if fields.len() == 0 {
        None
    } else if fields.last().0 == key {
        Some(fields.last().1)
    } else {
        field_value(fields.drop_last(), key)
    }
}

/// ` key: "value"` for each key in order that has a value.
pub open spec fn rendered_fields(keys: Seq<Seq<char>>, fields: Fields) -> Seq<char>
    decreases keys.len(),
{
    if keys.len() == 0 {
        Seq::empty()
    } else {
        rendered_fields(keys.drop_last(), fields) + match field_value(fields, keys.last()) {
            Some(v) => " "@ + keys.last() + ": \""@ + v + "\""@,
            None => Seq::empty(),
        }
    }
}

/// A token written back: its fields in its category's preferred order, or
/// as written when the category has none.
pub open spec fn rendered_token(name: Seq<char>, fields: Fields) -> Seq<char> {
    let keys = match preferred_order_spec(name) {
        Some(keys) => keys,
        None => fields.map_values(|f: (Seq<char>, Seq<char>)| f.0),
    };
    name + " {"@ + rendered_fields(keys, fields) + " }"@
}

/// A field written back: ` key: "value"`.
pub open spec fn field_text(key: Seq<char>, value: Seq<char>) -> Seq<char> {
    " "@ + key + ": \""@ + value + "\""@
}

/// The verbalizer's field order: a date is written year, month, day; a
/// fraction denominator, numerator; a measure denominator, numerator, value;
/// money value, currency; a time noon, hour, minute, second — whatever
/// order the tagger wrote them in.
pub proof fn lemma_verbalizer_field_order(fields: Fields)
    ensures
        field_value(fields, "year"@) is Some && field_value(fields, "month"@) is Some && field_value(fields, "day"@)
            is Some ==> rendered_token("date"@, fields) == "date"@ + " {"@ + field_text(
            "year"@,
            field_value(fields, "year"@)->0,
        ) + field_text("month"@, field_value(fields, "month"@)->0) + field_text(
            "day"@,
            field_value(fields, "day"@)->0,
        ) + " }"@,
        field_value(fields, "denominator"@) is Some && field_value(fields, "numerator"@) is Some ==> rendered_token(
            "fraction"@,
            fields,
        ) == "fraction"@ + " {"@ + field_text("denominator"@, field_value(fields, "denominator"@)->0) + field_text(
            "numerator"@,
            field_value(fields, "numerator"@)->0,
        ) + " }"@,
        field_value(fields, "denominator"@) is Some && field_value(fields, "numerator"@) is Some && field_value(
            fields,
            "value"@,
        ) is Some ==> rendered_token("measure"@, fields) == "measure"@ + " {"@ + field_text(
            "denominator"@,
            field_value(fields, "denominator"@)->0,
        ) + field_text("numerator"@, field_value(fields, "numerator"@)->0) + field_text(
            "value"@,
            field_value(fields, "value"@)->0,
        ) + " }"@,
        field_value(fields, "value"@) is Some && field_value(fields, "currency"@) is Some ==> rendered_token(
            "money"@,
            fields,
        ) == "money"@ + " {"@ + field_text("value"@, field_value(fields, "value"@)->0) + field_text(
            "currency"@,
            field_value(fields, "currency"@)->0,
        ) + " }"@,
        field_value(fields, "noon"@) is Some && field_value(fields, "hour"@) is Some && field_value(fields, "minute"@)
            is Some && field_value(fields, "second"@) is Some ==> rendered_token("time"@, fields) == "time"@ + " {"@
            + field_text("noon"@, field_value(fields, "noon"@)->0) + field_text(
            "hour"@,
            field_value(fields, "hour"@)->0,
        ) + field_text("minute"@, field_value(fields, "minute"@)->0) + field_text(
            "second"@,
            field_value(fields, "second"@)->0,
        ) + " }"@,
{
    lemma_date_order(fields);
    lemma_fraction_order(fields);
    lemma_measure_order(fields);
    lemma_money_order(fields);
    lemma_time_order(fields);
}

proof fn lemma_category_names_differ()
    ensures
        "fraction"@ != "date"@,
        "measure"@ != "date"@ && "measure"@ != "fraction"@,
        "money"@ != "date"@ && "money"@ != "fraction"@ && "money"@ != "measure"@,
        "time"@ != "date"@ && "time"@ != "fraction"@ && "time"@ != "measure"@ && "time"@ != "money"@,
{
    reveal_strlit("date");
    reveal_strlit("fraction");
    reveal_strlit("measure");
    reveal_strlit("money");
    reveal_strlit("time");
    assert("time"@[0] != "date"@[0]);
    assert("date"@.len() == 4 && "fraction"@.len() == 8 && "measure"@.len() == 7 && "money"@.len() == 5
        && "time"@.len() == 4);
}

proof fn lemma_date_order(fields: Fields)
    ensures
        field_value(fields, "year"@) is Some && field_value(fields, "month"@) is Some && field_value(fields, "day"@)
            is Some ==> rendered_token("date"@, fields) == "date"@ + " {"@ + field_text(
            "year"@,
            field_value(fields, "year"@)->0,
        ) + field_text("month"@, field_value(fields, "month"@)->0) + field_text(
            "day"@,
            field_value(fields, "day"@)->0,
        ) + " }"@,
{
    let e = Seq::<Seq<char>>::empty();
    if field_value(fields, "year"@) is Some && field_value(fields, "month"@) is Some && field_value(fields, "day"@)
        is Some {
        let keys = e.push("year"@).push("month"@).push("day"@);
        assert(keys =~= seq!["year"@, "month"@, "day"@]);
        lemma_texts_push(e, "year"@, fields);
        lemma_texts_push(e.push("year"@), "month"@, fields);
        lemma_texts_push(e.push("year"@).push("month"@), "day"@, fields);
        assert(keys[0] == "year"@ && keys[1] == "month"@ && keys[2] == "day"@);
        lemma_token_in_key_order("date"@, keys, fields);
        assert(rendered_token("date"@, fields) =~= "date"@ + " {"@ + field_text(
            "year"@,
            field_value(fields, "year"@)->0,
        ) + field_text("month"@, field_value(fields, "month"@)->0) + field_text(
            "day"@,
            field_value(fields, "day"@)->0,
        ) + " }"@);
    }
}

proof fn lemma_fraction_order(fields: Fields)
    ensures
        field_value(fields, "denominator"@) is Some && field_value(fields, "numerator"@) is Some ==> rendered_token(
            "fraction"@,
            fields,
        ) == "fraction"@ + " {"@ + field_text("denominator"@, field_value(fields, "denominator"@)->0) + field_text(
            "numerator"@,
            field_value(fields, "numerator"@)->0,
        ) + " }"@,
{
    let e = Seq::<Seq<char>>::empty();
    if field_value(fields, "denominator"@) is Some && field_value(fields, "numerator"@) is Some {
        lemma_category_names_differ();
        let keys = e.push("denominator"@).push("numerator"@);
        assert(keys =~= seq!["denominator"@, "numerator"@]);
        lemma_texts_push(e, "denominator"@, fields);
        lemma_texts_push(e.push("denominator"@), "numerator"@, fields);
        assert(keys[0] == "denominator"@ && keys[1] == "numerator"@);
        lemma_token_in_key_order("fraction"@, keys, fields);
        assert(rendered_token("fraction"@, fields) =~= "fraction"@ + " {"@ + field_text(
            "denominator"@,
            field_value(fields, "denominator"@)->0,
        ) + field_text("numerator"@, field_value(fields, "numerator"@)->0) + " }"@);
    }
}

proof fn lemma_measure_order(fields: Fields)
    ensures
        field_value(fields, "denominator"@) is Some && field_value(fields, "numerator"@) is Some && field_value(
            fields,
            "value"@,
        ) is Some ==> rendered_token("measure"@, fields) == "measure"@ + " {"@ + field_text(
            "denominator"@,
            field_value(fields, "denominator"@)->0,
        ) + field_text("numerator"@, field_value(fields, "numerator"@)->0) + field_text(
            "value"@,
            field_value(fields, "value"@)->0,
        ) + " }"@,
{
    let e = Seq::<Seq<char>>::empty();
    if field_value(fields, "denominator"@) is Some && field_value(fields, "numerator"@) is Some && field_value(
        fields,
        "value"@,
    ) is Some {
        lemma_category_names_differ();
        let keys = e.push("denominator"@).push("numerator"@).push("value"@);
        assert(keys =~= seq!["denominator"@, "numerator"@, "value"@]);
        lemma_texts_push(e, "denominator"@, fields);
        lemma_texts_push(e.push("denominator"@), "numerator"@, fields);
        lemma_texts_push(e.push("denominator"@).push("numerator"@), "value"@, fields);
        assert(keys[0] == "denominator"@ && keys[1] == "numerator"@ && keys[2] == "value"@);
        lemma_token_in_key_order("measure"@, keys, fields);
        assert(rendered_token("measure"@, fields) =~= "measure"@ + " {"@ + field_text(
            "denominator"@,
            field_value(fields, "denominator"@)->0,
        ) + field_text("numerator"@, field_value(fields, "numerator"@)->0) + field_text(
            "value"@,
            field_value(fields, "value"@)->0,
        ) + " }"@);
    }
}

proof fn lemma_money_order(fields: Fields)
    ensures
        field_value(fields, "value"@) is Some && field_value(fields, "currency"@) is Some ==> rendered_token(
            "money"@,
            fields,
        ) == "money"@ + " {"@ + field_text("value"@, field_value(fields, "value"@)->0) + field_text(
            "currency"@,
            field_value(fields, "currency"@)->0,
        ) + " }"@,
{
    let e = Seq::<Seq<char>>::empty();
    if field_value(fields, "value"@) is Some && field_value(fields, "currency"@) is Some {
        lemma_category_names_differ();
        let keys = e.push("value"@).push("currency"@);
        assert(keys =~= seq!["value"@, "currency"@]);
        lemma_texts_push(e, "value"@, fields);
        lemma_texts_push(e.push("value"@), "currency"@, fields);
        assert(keys[0] == "value"@ && keys[1] == "currency"@);
        lemma_token_in_key_order("money"@, keys, fields);
        assert(rendered_token("money"@, fields) =~= "money"@ + " {"@ + field_text(
            "value"@,
            field_value(fields, "value"@)->0,
        ) + field_text("currency"@, field_value(fields, "currency"@)->0) + " }"@);
    }
}

proof fn lemma_time_order(fields: Fields)
    ensures
        field_value(fields, "noon"@) is Some && field_value(fields, "hour"@) is Some && field_value(fields, "minute"@)
            is Some && field_value(fields, "second"@) is Some ==> rendered_token("time"@, fields) == "time"@ + " {"@
            + field_text("noon"@, field_value(fields, "noon"@)->0) + field_text(
            "hour"@,
            field_value(fields, "hour"@)->0,
        ) + field_text("minute"@, field_value(fields, "minute"@)->0) + field_text(
            "second"@,
            field_value(fields, "second"@)->0,
        ) + " }"@,
{
    let e = Seq::<Seq<char>>::empty();
    if field_value(fields, "noon"@) is Some && field_value(fields, "hour"@) is Some && field_value(fields, "minute"@)
        is Some && field_value(fields, "second"@) is Some {
        lemma_category_names_differ();
        let keys = e.push("noon"@).push("hour"@).push("minute"@).push("second"@);
        assert(keys =~= seq!["noon"@, "hour"@, "minute"@, "second"@]);
        lemma_texts_push(e, "noon"@, fields);
        lemma_texts_push(e.push("noon"@), "hour"@, fields);
        lemma_texts_push(e.push("noon"@).push("hour"@), "minute"@, fields);
        lemma_texts_push(e.push("noon"@).push("hour"@).push("minute"@), "second"@, fields);
        assert(keys[0] == "noon"@ && keys[1] == "hour"@ && keys[2] == "minute"@ && keys[3] == "second"@);
        lemma_token_in_key_order("time"@, keys, fields);
        assert(rendered_token("time"@, fields) =~= "time"@ + " {"@ + field_text(
            "noon"@,
            field_value(fields, "noon"@)->0,
        ) + field_text("hour"@, field_value(fields, "hour"@)->0) + field_text(
            "minute"@,
            field_value(fields, "minute"@)->0,
        ) + field_text("second"@, field_value(fields, "second"@)->0) + " }"@);
    }
}

/// The fields of `keys` that all have values are written in key order.
spec fn texts_in_order(keys: Seq<Seq<char>>, fields: Fields) -> Seq<char>
    decreases keys.len(),
{
    if keys.len() == 0 {
        Seq::empty()
    } else {
        texts_in_order(keys.drop_last(), fields) + field_text(keys.last(), field_value(fields, keys.last())->0)
    }
}

proof fn lemma_texts_push(keys: Seq<Seq<char>>, key: Seq<char>, fields: Fields)
    ensures
        texts_in_order(keys.push(key), fields) == texts_in_order(keys, fields) + field_text(
            key,
            field_value(fields, key)->0,
        ),
        keys.len() == 0 ==> texts_in_order(keys, fields) == Seq::<char>::empty(),
{
    assert(keys.push(key).drop_last() =~= keys);
}

proof fn lemma_token_in_key_order(name: Seq<char>, keys: Seq<Seq<char>>, fields: Fields)
    requires
        preferred_order_spec(name) == Some(keys),
        forall|i: int| 0 <= i < keys.len() ==> field_value(fields, #[trigger] keys[i]) is Some,
    ensures
        rendered_token(name, fields) == name + " {"@ + texts_in_order(keys, fields) + " }"@,
{
    lemma_rendered_in_order(keys, fields);
}

proof fn lemma_rendered_in_order(keys: Seq<Seq<char>>, fields: Fields)
    ensures
        (forall|i: int| 0 <= i < keys.len() ==> field_value(fields, #[trigger] keys[i]) is Some) ==> rendered_fields(
            keys,
            fields,
        ) == texts_in_order(keys, fields),
    decreases keys.len(),
{
    if keys.len() > 0 {
        lemma_rendered_in_order(keys.drop_last(), fields);
        if forall|i: int| 0 <= i < keys.len() ==> field_value(fields, #[trigger] keys[i]) is Some {
            assert forall|i: int| 0 <= i < keys.drop_last().len() implies field_value(
                fields,
                #[trigger] keys.drop_last()[i],
            ) is Some by {
                assert(keys.drop_last()[i] == keys[i]);
            }
            assert(field_value(fields, keys[keys.len() - 1]) is Some);
        }
    }
}

fn find_field(fields: &Vec<(String, String)>, key: &str) -> (found: Option<String>)
    ensures
        match field_value(field_views(fields@), key@) {
            Some(v) => found matches Some(f) && f@ == v,
            None => found is None,
        },
{
    let target = key.to_owned();
    let mut i = fields.len();
    assert(field_views(fields@).take(fields@.len() as int) =~= field_views(fields@));
    while i > 0
        invariant
            i <= fields@.len(),
            target@ == key@,
            field_value(field_views(fields@), key@) == field_value(field_views(fields@).take(i as int), key@),
        decreases i,
    {
        let ghost prefix = field_views(fields@).take(i as int);
        assert(prefix.drop_last() =~= field_views(fields@).take(i - 1));
        assert(prefix.last() == (fields@[i - 1].0@, fields@[i - 1].1@));
        if fields[i - 1].0 == target {
            return Some(fields[i - 1].1.clone());
        }
        i = i - 1;
    }
    None
}

impl TaggedToken {
    /// Writes the token back as tagger text.
    pub fn render(&self) -> (out: String)
        ensures
            out@ == rendered_token(self.name@, field_views(self.fields@)),
    {
        let keys: Vec<String> = match preferred_order(self.name.as_str()) {
            Some(keys) => keys,
            None => {
                let mut own: Vec<String> = Vec::new();
                let mut i: usize = 0;
                while i < self.fields.len()
                    invariant
                        i <= self.fields@.len(),
                        string_views(own@) == field_views(self.fields@).map_values(|f: (Seq<char>, Seq<char>)| f.0).take(i as int),
                    decreases self.fields@.len() - i,
                {
                    let ghost before = own@;
                    own.push(self.fields[i].0.clone());
                    assert(field_views(self.fields@)[i as int].0 == self.fields@[i as int].0@);
                    assert(string_views(own@) =~= string_views(before).push(self.fields@[i as int].0@));
                    assert(string_views(own@) =~= field_views(self.fields@).map_values(|f: (Seq<char>, Seq<char>)| f.0).take(i + 1));
                    i = i + 1;
                }
                assert(field_views(self.fields@).map_values(|f: (Seq<char>, Seq<char>)| f.0).take(self.fields@.len() as int)
                    =~= field_views(self.fields@).map_values(|f: (Seq<char>, Seq<char>)| f.0));
                own
            },
        };
        let ghost ks = string_views(keys@);
        let ghost fv = field_views(self.fields@);
        let mut out = chars_of(self.name.as_str());
        append_str(&mut out, " {");
        let ghost head = out@;
        let mut k: usize = 0;
        while k < keys.len()
            invariant
                k <= keys@.len(),
                ks == string_views(keys@),
                fv == field_views(self.fields@),
                out@ == head + rendered_fields(ks.take(k as int), fv),
            decreases keys@.len() - k,
        {
            proof {
                assert(ks.take(k + 1).drop_last() =~= ks.take(k as int));
                assert(ks.take(k + 1).last() == keys@[k as int]@);
            }
            match find_field(&self.fields, keys[k].as_str()) {
                Some(value) => {
                    append_str(&mut out, " ");
                    append_str(&mut out, keys[k].as_str());
                    append_str(&mut out, ": \"");
                    append_str(&mut out, value.as_str());
                    append_str(&mut out, "\"");
                },
                None => {},
            }
            k = k + 1;
        }
        assert(ks.take(keys@.len() as int) =~= ks);
        append_str(&mut out, " }");
        string_from_chars(out.as_slice())
    }
}

/// `parts` joined with single spaces.
pub open spec fn joined_with_spaces(parts: Seq<Seq<char>>) -> Seq<char>
    decreases parts.len(),
{
    if parts.len() == 0 {
        Seq::empty()
    } else if parts.len() == 1 {
        parts[0]
    } else {
        joined_with_spaces(parts.drop_last()) + " "@ + parts.last()
    }
}

/// The tagger text with each token's fields put in the order the
/// verbalizer expects; text without a `{` is returned as it is.
pub open spec fn reordered(input: Seq<char>) -> Result<Seq<char>, TokenParseFailure> {
    if !input.contains('{') {
        Ok(input)
    } else {
        match parse_tokens(input, 0) {
            Ok(tokens) => Ok(
                joined_with_spaces(
                    tokens.map_values(|t: (Seq<char>, Fields)| rendered_token(t.0, t.1)),
                ),
            ),
            Err(f) => Err(f),
        }
    }
}

/// Puts each token's fields in the order the verbalizer expects.
pub fn reorder_zh_tn_tokens(input: &str) -> (result: Result<String, TextNormalizationError>)
    ensures
        match reordered(input@) {
            Ok(text) => result matches Ok(r) && r@ == text,
            Err(f) => result matches Err(TextNormalizationError::TokenParse(m)) && m@ == failure_message(f),
        },
{
    let chars = chars_of(input);
    let mut has_brace = false;
    let mut i: usize = 0;
    while i < chars.len()
        invariant
            i <= chars@.len(),
            chars@ == input@,
            has_brace == (exists|k: int| 0 <= k < i && chars@[k] == '{'),
        decreases chars@.len() - i,
    {
        if chars[i] == '{' {
            has_brace = true;
        }
        i = i + 1;
    }
    assert(has_brace == input@.contains('{'));
    if !has_brace {
        return Ok(input.to_owned());
    }
    match parse_tagged_tokens(input) {
        Err(e) => Err(e),
        Ok(tokens) => {
            let ghost views = token_views(tokens@);
            let ghost rendered = views.map_values(|t: (Seq<char>, Fields)| rendered_token(t.0, t.1));
            let mut out: Vec<char> = Vec::new();
            let mut k: usize = 0;
            while k < tokens.len()
                invariant
                    k <= tokens@.len(),
                    views == token_views(tokens@),
                    rendered == views.map_values(|t: (Seq<char>, Fields)| rendered_token(t.0, t.1)),
                    out@ == joined_with_spaces(rendered.take(k as int)),
                decreases tokens@.len() - k,
            {
                proof {
                    assert(rendered.take(k + 1).drop_last() =~= rendered.take(k as int));
                }
                let text = tokens[k].render();
                if k > 0 {
                    append_str(&mut out, " ");
                }
                append_str(&mut out, text.as_str());
                k = k + 1;
            }
            assert(rendered.take(tokens@.len() as int) =~= rendered);
            Ok(string_from_chars(out.as_slice()))
        },
    }
}

/// The label the transducers use for "no symbol".
pub const EPS_LABEL: u32 = 0;

/// The character with code point `u`, if there is one.
///
/// Trusted: calls `char::from_u32`, which the std documentation says
/// returns `None` exactly for values that are not Unicode scalar values.
#[verifier::external_body]
fn char_from_u32(u: u32) -> (c: Option<char>)
    ensures
        match c {
            Some(ch) => vstd::utf8::is_scalar(u) && ch as u32 == u,
            None => !vstd::utf8::is_scalar(u),
        },
{
    char::from_u32(u)
}

/// The message std gives for bytes that are not UTF-8.
pub uninterp spec fn utf8_error_message(bytes: Seq<u8>) -> Seq<char>;

/// The text of `bytes` if they are UTF-8.
///
/// Trusted: calls `String::from_utf8`, which the std documentation says
/// succeeds exactly on valid UTF-8 and then holds the decoded text; the
/// error's message is named, not stated.
#[verifier::external_body]
fn string_from_utf8(bytes: Vec<u8>) -> (result: Result<String, String>)
    ensures
        match result {
            Ok(s) => vstd::utf8::valid_utf8(bytes@) && s@ == vstd::utf8::decode_utf8(bytes@),
            Err(m) => !vstd::utf8::valid_utf8(bytes@) && m@ == utf8_error_message(bytes@),
        },
{
    String::from_utf8(bytes).map_err(|error| error.to_string())
}

/// The output labels other than epsilon.
pub open spec fn symbols(labels: Seq<u32>) -> Seq<u32> {
    labels.filter(|l: u32| l != EPS_LABEL)
}

/// Whether some output label is a code point beyond a byte.
pub open spec fn uses_codepoints(labels: Seq<u32>) -> bool {
    exists|i: int| 0 <= i < labels.len() && labels[i] != EPS_LABEL && labels[i] > 255
}

/// The first label that is not a Unicode scalar value.
pub open spec fn first_invalid(labels: Seq<u32>) -> Option<u32>
    decreases labels.len(),
{
    if labels.len() == 0 {
        None
    } else if !vstd::utf8::is_scalar(labels[0]) {
        Some(labels[0])
    } else {
        first_invalid(labels.drop_first())
    }
}

/// The message for a label that is not a code point.
pub open spec fn invalid_label_message(label: u32) -> Seq<char> {
    "invalid Unicode code point in FST output: "@ + decimal_digits(label as nat)
}

/// The text on the output side of a best path, given its output labels:
/// code points when some label exceeds a byte, otherwise UTF-8 bytes;
/// epsilon labels are skipped.
pub fn fst_output(olabels: &[u32]) -> (result: Result<String, TextNormalizationError>)
    ensures
        uses_codepoints(olabels@) ==> match first_invalid(symbols(olabels@)) {
            Some(l) => result matches Err(TextNormalizationError::FstOperation(m)) && m@ == invalid_label_message(l),
            None => result matches Ok(s) && s@.len() == symbols(olabels@).len() && forall|i: int|
                0 <= i < s@.len() ==> (#[trigger] s@[i]) as u32 == symbols(olabels@)[i],
        },
        !uses_codepoints(olabels@) ==> {
            let bytes = symbols(olabels@).map_values(|l: u32| l as u8);
            if vstd::utf8::valid_utf8(bytes) {
                result matches Ok(s) && s@ == vstd::utf8::decode_utf8(bytes)
            } else {
                result matches Err(TextNormalizationError::FstOperation(m)) && m@ == utf8_error_message(bytes)
            }
        },
{
    let mut kept: Vec<u32> = Vec::new();
    let mut wide = false;
    let mut i: usize = 0;
    while i < olabels.len()
        invariant
            i <= olabels@.len(),
            kept@ == symbols(olabels@.take(i as int)),
            wide == (exists|k: int| 0 <= k < i && olabels@[k] != EPS_LABEL && olabels@[k] > 255),
            forall|t: int| 0 <= t < kept@.len() ==> (#[trigger] kept@[t]) > 255 ==> wide,
        decreases olabels@.len() - i,
    {
        proof {
            reveal_with_fuel(Seq::<_>::filter, 1);
            assert(olabels@.take(i + 1).drop_last() =~= olabels@.take(i as int));
        }
        let l = olabels[i];
        if l != EPS_LABEL {
            kept.push(l);
            if l > 255 {
                wide = true;
            }
        }
        i = i + 1;
    }
    assert(olabels@.take(olabels@.len() as int) =~= olabels@);
    assert(wide == uses_codepoints(olabels@));
    if wide {
        let mut out: Vec<char> = Vec::new();
        let mut k: usize = 0;
        assert(kept@.subrange(0, kept@.len() as int) =~= kept@);
        while k < kept.len()
            invariant
                k <= kept@.len(),
                kept@ == symbols(olabels@),
                uses_codepoints(olabels@),
                first_invalid(kept@) == first_invalid(kept@.subrange(k as int, kept@.len() as int)),
                out@.len() == k,
                forall|t: int| 0 <= t < k ==> (#[trigger] out@[t]) as u32 == kept@[t],
            decreases kept@.len() - k,
        {
            let ghost rest = kept@.subrange(k as int, kept@.len() as int);
            assert(rest[0] == kept@[k as int]);
            assert(rest.drop_first() =~= kept@.subrange(k + 1, kept@.len() as int));
            match char_from_u32(kept[k]) {
                Some(c) => {
                    out.push(c);
                },
                None => {
                    let mut m = chars_of("invalid Unicode code point in FST output: ");
                    let digits = decimal_chars(kept[k] as u64);
                    append_chars(&mut m, digits.as_slice());
                    return Err(TextNormalizationError::FstOperation(string_from_chars(m.as_slice())));
                },
            }
            k = k + 1;
        }
        assert(kept@.subrange(k as int, kept@.len() as int).len() == 0);
        Ok(string_from_chars(out.as_slice()))
    } else {
        let mut bytes: Vec<u8> = Vec::new();
        let mut k: usize = 0;
        while k < kept.len()
            invariant
                k <= kept@.len(),
                kept@ == symbols(olabels@),
                !uses_codepoints(olabels@),
                forall|t: int| 0 <= t < kept@.len() ==> kept@[t] <= 255,
                bytes@ == kept@.take(k as int).map_values(|l: u32| l as u8),
            decreases kept@.len() - k,
        {
            bytes.push(kept[k] as u8);
            assert(bytes@ =~= kept@.take(k + 1).map_values(|l: u32| l as u8));
            k = k + 1;
        }
        assert(kept@.take(kept@.len() as int) =~= kept@);
        match string_from_utf8(bytes) {
            Ok(s) => Ok(s),
            Err(m) => Err(TextNormalizationError::FstOperation(m)),
        }
    }
}

/// The normalized text with every `嗯` removed (the interjection the
/// transducer leaves in place).
pub open spec fn without_en(text: Seq<char>) -> Seq<char> {
    text.filter(|c: char| c != '嗯')
}

/// Removes every `嗯`.
pub fn remove_en(text: &str) -> (out: String)
    ensures
        out@ == without_en(text@),
{
    let chars = chars_of(text);
    let mut out: Vec<char> = Vec::new();
    let mut i: usize = 0;
    while i < chars.len()
        invariant
            i <= chars@.len(),
            chars@ == text@,
            out@ == without_en(chars@.take(i as int)),
        decreases chars@.len() - i,
    {
        proof {
            reveal_with_fuel(Seq::<_>::filter, 1);
            assert(chars@.take(i + 1).drop_last() =~= chars@.take(i as int));
        }
        if chars[i] != '嗯' {
            out.push(chars[i]);
        }
        i = i + 1;
    }
    assert(chars@.take(chars@.len() as int) =~= chars@);
    string_from_chars(out.as_slice())
}

} // verus!
