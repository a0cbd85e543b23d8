//! The preprocessor: from text to the list of its normalized terms. Index
//! and queries go through the same one.
use vstd::prelude::*;
use vstd::string::{StrSliceExecFns, StringExecFns};
use regex::Regex;
use rust_stemmers::{Algorithm, Stemmer};
use crate::engine::utils::{chars_of, push_char};
use crate::engine::boolean::{is_space, flush, tokens_view};

verus! {

/// What matches this is a separator: a run of characters that are neither
/// letters nor digits nor whitespace.
pub const SEPARATORS: &'static str = "[^a-zA-Z0-9\\s]+";

/// What a separator is replaced with.
pub const SPACE: &'static str = " ";

/// Whether `regex` accepts the pattern.
pub uninterp spec fn regex_compiles(pattern: Seq<char>) -> bool;

/// `text` with every match of `pattern`, none overlapping another,
/// replaced as `replacement` says.
pub uninterp spec fn regex_replaced(
    pattern: Seq<char>,
    text: Seq<char>,
    replacement: Seq<char>,
) -> Seq<char>;

/// The lowercase equivalent of a string.
pub uninterp spec fn lowercased(text: Seq<char>) -> Seq<char>;

/// The stem that the English Snowball stemmer gives a word.
pub uninterp spec fn english_stem(word: Seq<char>) -> Seq<char>;

/// `Regex::new`: whether the pattern compiles.
#[verifier::external_body]
fn regex_is_valid(pattern: &str) -> (ok: bool)
    ensures
        ok == regex_compiles(pattern@),
{
    Regex::new(pattern).is_ok()
}

/// `Regex::replace_all`, for the regex of a pattern that compiles: the
/// text with all matches replaced.
#[verifier::external_body]
fn regex_replace_all(pattern: &str, text: &str, replacement: &str) -> (out: String)
    requires
        regex_compiles(pattern@),
    ensures
        out@ == regex_replaced(pattern@, text@, replacement@),
{
    Regex::new(pattern).unwrap().replace_all(text, replacement).into_owned()
}

/// `str::to_lowercase`: the lowercase equivalent of the string.
#[verifier::external_body]
fn to_lowercase(text: &str) -> (out: String)
    ensures
        out@ == lowercased(text@),
{
    text.to_lowercase()
}

/// `Stemmer::stem` of the English stemmer: the stem of the word.
#[verifier::external_body]
fn stem_english(word: &str) -> (out: String)
    ensures
        out@ == english_stem(word@),
{
    Stemmer::create(Algorithm::English).stem(word).into_owned()
}

/// The words of `s` from character `i` on, given the characters of the
/// word that `i` stands in: ASCII whitespace separates words.
pub open spec fn words_from(s: Seq<char>, i: int, word: Seq<char>) -> Seq<Seq<char>>
    decreases s.len() - i,
{
    if i >= s.len() {
        flush(word)
    } else if is_space(s[i]) {
        flush(word) + words_from(s, i + 1, Seq::empty())
    } else {
        words_from(s, i + 1, word.push(s[i]))
    }
}

/// The words of a text.
pub open spec fn words(s: Seq<char>) -> Seq<Seq<char>> {
    words_from(s, 0, Seq::empty())
}

/// A word, normalized: lowercased, then stemmed.
pub open spec fn normalized(word: Seq<char>) -> Seq<char> {
    english_stem(lowercased(word))
}

/// The terms of a text: separators become spaces, the result is split
/// into words, and each word is normalized.
pub open spec fn terms_of(text: Seq<char>) -> Seq<Seq<char>> {
    words(regex_replaced(SEPARATORS@, text, SPACE@)).map_values(|w: Seq<char>| normalized(w))
}

/// Splits a text into words at ASCII whitespace.
pub fn split_words(text: &str) -> (out: Vec<String>)
    ensures
        tokens_view(out@) == words(text@),
{
    let s = chars_of(text);
    let mut out: Vec<String> = Vec::new();
    let mut word: String = String::new();
    let mut i: usize = 0;
    proof {
        assert(tokens_view(out@) =~= Seq::empty());
        assert(tokens_view(out@) + words_from(s@, 0, Seq::empty()) =~= words(text@));
    }
    while i < s.len()
        invariant
            i <= s.len(),
            s@ == text@,
            words(text@) == tokens_view(out@) + words_from(s@, i as int, word@),
        decreases s.len() - i,
    {
        let c: char = s[i];
        if c == ' ' || c == '\t' || c == '\n' || c == '\r' || c == '\x0C' {
            let ghost done = tokens_view(out@);
            let ghost held = word@;
            if !word.as_str().is_empty() {
                let ghost before = out@;
                out.push(word);
                word = String::new();
                proof {
                    assert(tokens_view(out@) =~= tokens_view(before).push(held));
                }
            }
            proof {
                assert(tokens_view(out@) =~= done + flush(held));
                assert(word@ =~= Seq::<char>::empty());
                assert(words(text@) =~= tokens_view(out@) + words_from(s@, i + 1, Seq::empty()));
            }
        } else {
            push_char(&mut word, c);
        }
        i += 1;
    }
    if !word.as_str().is_empty() {
        let ghost before = out@;
        let ghost held = word@;
        out.push(word);
        proof {
            assert(tokens_view(out@) =~= tokens_view(before).push(held));
        }
    } else {
        proof {
            assert(tokens_view(out@) + Seq::empty() =~= tokens_view(out@));
        }
    }
    out
}

/// A preprocessor of English text.
pub struct Preprocessor {
    pattern: String,
}

impl Preprocessor {
    /// The pattern is that of the separators, and it compiles.
    #[verifier::type_invariant]
    spec fn inv(self) -> bool {
        self.pattern@ == SEPARATORS@ && regex_compiles(self.pattern@)
    }

    /// A preprocessor, unless the pattern of the separators does not
    /// compile.
    pub fn new() -> (r: Option<Preprocessor>)
        ensures
            r is Some <==> regex_compiles(SEPARATORS@),
    {
        if regex_is_valid(SEPARATORS) {
            Some(Preprocessor { pattern: String::from_str(SEPARATORS) })
        } else {
            None
        }
    }

    /// The terms of a text, in order.
    pub fn tokenize_and_stem(&self, text: &str) -> (out: Vec<String>)
        ensures
            tokens_view(out@) == terms_of(text@),
    {
        proof {
            use_type_invariant(self);
        }
        let clean: String = regex_replace_all(self.pattern.as_str(), text, SPACE);
        let raw: Vec<String> = split_words(clean.as_str());
        let ghost rv = tokens_view(raw@);
        let mut out: Vec<String> = Vec::new();
        let mut i: usize = 0;
        proof {
            assert(tokens_view(out@) =~= rv.take(0).map_values(|w: Seq<char>| normalized(w)));
        }
        while i < raw.len()
            invariant
                i <= raw.len(),
                rv == tokens_view(raw@),
                tokens_view(out@) == rv.take(i as int).map_values(|w: Seq<char>| normalized(w)),
            decreases raw.len() - i,
        {
            let lower: String = to_lowercase(raw[i].as_str());
            let stem: String = stem_english(lower.as_str());
            let ghost before = out@;
            out.push(stem);
            proof {
                assert(rv[i as int] == raw@[i as int]@);
                assert(tokens_view(out@) =~= tokens_view(before).push(normalized(rv[i as int])));
                assert(rv.take(i + 1).map_values(|w: Seq<char>| normalized(w)) =~= rv.take(
                    i as int,
                ).map_values(|w: Seq<char>| normalized(w)).push(normalized(rv[i as int])));
            }
            i += 1;
        }
        proof {
            assert(rv.take(i as int) =~= rv);
        }
        out
    }
}

} // verus!
