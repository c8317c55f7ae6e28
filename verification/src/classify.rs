//! Heuristic content classification. Patterns are tried in a fixed
//! precedence order, first match wins: URL, then email, then phone number,
//! then a code heuristic that scores language-structural tokens, and
//! finally plain text.

use vstd::prelude::*;
use crate::models::DataType;
use crate::text::{contains_seq, str_contains};

verus! {

/// Whether the anchored URL pattern (an `http://`, `https://` or `www.`
/// prefix followed by a plausible remainder without whitespace) matches
/// the whole text. Names the result of the fixed regular expression in
/// [`classify_content`]; it depends on the text alone.
pub uninterp spec fn matches_url_pattern(s: Seq<char>) -> bool;

/// Whether the anchored email pattern (local part, `@`, domain with a
/// final alphabetic label of two or more letters) matches the whole text.
/// Names the result of the fixed regular expression in
/// [`classify_content`]; it depends on the text alone.
pub uninterp spec fn matches_email_pattern(s: Seq<char>) -> bool;

/// Whether the anchored phone-number pattern (optional country code, then
/// three, three and four digits with optional separators) matches the
/// whole text. Names the result of the fixed regular expression in
/// [`classify_content`]; it depends on the text alone.
pub uninterp spec fn matches_phone_pattern(s: Seq<char>) -> bool;

/// Relies on `regex::Regex::is_match` (after `regex::Regex::new` on this
/// fixed, valid pattern literal, which therefore cannot fail): whether the
/// URL pattern matches, a deterministic function of the text.
#[verifier::external_body]
fn match_url(text: &str) -> (r: bool)
    ensures
        r == matches_url_pattern(text@),
{
    regex::Regex::new(r"^(https?://|www\.)[^\s/$.?#].[^\s]*$").unwrap().is_match(text)
}

/// Relies on `regex::Regex::is_match` (after `regex::Regex::new` on this
/// fixed, valid pattern literal, which therefore cannot fail): whether the
/// email pattern matches, a deterministic function of the text.
#[verifier::external_body]
fn match_email(text: &str) -> (r: bool)
    ensures
        r == matches_email_pattern(text@),
{
    regex::Regex::new(r"^[a-zA-Z0-9._%+-]+@[a-zA-Z0-9.-]+\.[a-zA-Z]{2,}$").unwrap().is_match(text)
}

/// Relies on `regex::Regex::is_match` (after `regex::Regex::new` on this
/// fixed, valid pattern literal, which therefore cannot fail): whether the
/// phone-number pattern matches, a deterministic function of the text.
#[verifier::external_body]
fn match_phone(text: &str) -> (r: bool)
    ensures
        r == matches_phone_pattern(text@),
{
    regex::Regex::new(r"^(\+\d{1,3}[- ]?)?\(?\d{3}\)?[- ]?\d{3}[- ]?\d{4}$").unwrap().is_match(
        text,
    )
}

/// One point for an indicator that occurs in the text.
pub open spec fn ind(s: Seq<char>, t: Seq<char>) -> int {
    if contains_seq(s, t) {
        1
    } else {
        0
    }
}

/// The code-heuristic score: one point per structural token present, and
/// two more when a statement or block boundary ends a line.
pub open spec fn code_score(s: Seq<char>) -> int {
    ind(s, "function"@) + ind(s, "class"@) + ind(s, "def"@) + ind(s, "import"@) + ind(s, "const"@)
        + ind(s, "let"@) + ind(s, "var"@) + ind(s, "public"@) + ind(s, "private"@) + ind(
        s,
        "return"@,
    ) + ind(s, "if ("@) + ind(s, "for ("@) + ind(s, "while ("@) + ind(s, "=>"@) + ind(s, "->"@)
        + ind(s, "::"@) + ind(s, "{"@) + ind(s, "}"@) + (if contains_seq(s, ";\n"@) || contains_seq(
        s,
        "{\n"@,
    ) || contains_seq(s, "}\n"@) {
        2int
    } else {
        0int
    })
}

/// The classification, by the fixed precedence.
pub open spec fn classify_spec(s: Seq<char>) -> DataType {
    if matches_url_pattern(s) {
        DataType::Url
    } else if matches_email_pattern(s) {
        DataType::Email
    } else if matches_phone_pattern(s) {
        DataType::Phone
    } else if code_score(s) >= 2 {
        DataType::Code
    } else {
        DataType::Text
    }
}

fn score_one(content: &str, token: &str) -> (r: i32)
    ensures
        r == ind(content@, token@),
{
    if str_contains(content, token) {
        1
    } else {
        0
    }
}

/// Classify a text into its [`DataType`], trying the URL, email and
/// phone patterns in that order and falling back to the code heuristic
/// and plain text.
pub fn classify_content(content: &str) -> (r: DataType)
    ensures
        r == classify_spec(content@),
{
    if match_url(content) {
        return DataType::Url;
    }
    if match_email(content) {
        return DataType::Email;
    }
    if match_phone(content) {
        return DataType::Phone;
    }
    let mut score: i32 = 0;
    score += score_one(content, "function");
    score += score_one(content, "class");
    score += score_one(content, "def");
    score += score_one(content, "import");
    score += score_one(content, "const");
    score += score_one(content, "let");
    score += score_one(content, "var");
    score += score_one(content, "public");
    score += score_one(content, "private");
    score += score_one(content, "return");
    score += score_one(content, "if (");
    score += score_one(content, "for (");
    score += score_one(content, "while (");
    score += score_one(content, "=>");
    score += score_one(content, "->");
    score += score_one(content, "::");
    score += score_one(content, "{");
    score += score_one(content, "}");
    if str_contains(content, ";\n") || str_contains(content, "{\n") || str_contains(content, "}\n")
    {
        score += 2;
    }
    if score >= 2 {
        DataType::Code
    } else {
        DataType::Text
    }
}

} // verus!
