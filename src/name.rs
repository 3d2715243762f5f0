//! Names given as space-separated tokens: lower case for words, upper case
//! for acronyms.
use crate::text::{chars_of, push_char};
use vstd::prelude::*;
use vstd::std_specs::iter::IteratorSpec;

verus! {

/// Whether `c` has the Unicode `White_Space` property (PropList.txt).
pub open spec fn white_space(c: char) -> bool {
    let u = c as u32;
    ||| 0x09 <= u <= 0x0d
    ||| u == 0x20
    ||| u == 0x85
    ||| u == 0xa0
    ||| u == 0x1680
    ||| 0x2000 <= u <= 0x200a
    ||| u == 0x2028
    ||| u == 0x2029
    ||| u == 0x202f
    ||| u == 0x205f
    ||| u == 0x3000
}

/// Relies on `char::is_whitespace`: true exactly for characters with the
/// Unicode `White_Space` property, the code points that `white_space` lists.
#[verifier::external_body]
fn is_whitespace(c: char) -> (r: bool)
    ensures
        r == white_space(c),
{
    c.is_whitespace()
}

/// The runs of non-white-space characters of `s`, in order, the first of them
/// continuing `pending`.
pub open spec fn split_from(s: Seq<char>, pending: Seq<char>) -> Seq<Seq<char>>
    decreases s.len(),
{
    if s.len() == 0 {
        if pending.len() > 0 {
            seq![pending]
        } else {
            Seq::empty()
        }
    } else if white_space(s[0]) {
        (if pending.len() > 0 {
            seq![pending]
        } else {
            Seq::empty()
        }) + split_from(s.drop_first(), Seq::empty())
    } else {
        split_from(s.drop_first(), pending.push(s[0]))
    }
}

/// The white-space separated words of `s`.
pub open spec fn words_of(s: Seq<char>) -> Seq<Seq<char>> {
    split_from(s, Seq::empty())
}

pub open spec fn has_lower(t: Seq<char>) -> bool {
    exists|i: int| 0 <= i < t.len() && 'a' <= #[trigger] t[i] <= 'z'
}

pub open spec fn has_upper(t: Seq<char>) -> bool {
    exists|i: int| 0 <= i < t.len() && 'A' <= #[trigger] t[i] <= 'Z'
}

/// A word with both lower-case and upper-case ASCII letters.
pub open spec fn is_mixed(t: Seq<char>) -> bool {
    has_lower(t) && has_upper(t)
}

/// One token of a name; an acronym has no lower-case letter.
#[derive(Debug, Clone, PartialEq)]
pub struct Token {
    pub value: String,
    pub is_acronym: bool,
}

pub open spec fn token_view(t: Token) -> (Seq<char>, bool) {
    (t.value@, t.is_acronym)
}

/// The token that a word becomes.
pub open spec fn token_of(w: Seq<char>) -> (Seq<char>, bool) {
    (w, !has_lower(w))
}

/// A name: a sequence of tokens.
pub struct Name {
    tokens: Vec<Token>,
}

/// Why a name could not be parsed.
#[derive(Debug, Clone, PartialEq)]
pub enum ParsingError {
    /// A token mixes lower and upper case.
    MixedCaseToken { raw_token: String },
}

/// Whether `t` has a lower-case and an upper-case ASCII letter.
fn case_flags(t: &Vec<char>) -> (r: (bool, bool))
    ensures
        r.0 == has_lower(t@),
        r.1 == has_upper(t@),
{
    let mut lower = false;
    let mut upper = false;
    let mut i: usize = 0;
    while i < t.len()
        invariant
            i <= t.len(),
            lower == exists|j: int| 0 <= j < i && 'a' <= #[trigger] t@[j] <= 'z',
            upper == exists|j: int| 0 <= j < i && 'A' <= #[trigger] t@[j] <= 'Z',
        decreases t.len() - i,
    {
        let c = t[i];
        if 'a' <= c && c <= 'z' {
            lower = true;
        }
        if 'A' <= c && c <= 'Z' {
            upper = true;
        }
        i += 1;
    }
    (lower, upper)
}

/// The white-space separated words of `s`.
fn split_whitespace(s: &str) -> (r: Vec<String>)
    ensures
        r@.map_values(|w: String| w@) == words_of(s@),
{
    let chars = chars_of(s);
    let mut words: Vec<String> = Vec::new();
    let mut pending = String::new();
    let mut i: usize = 0;
    proof {
        assert(chars@.skip(0) =~= chars@);
        assert(words@.map_values(|w: String| w@) =~= Seq::<Seq<char>>::empty());
        assert(Seq::<Seq<char>>::empty() + words_of(s@) =~= words_of(s@));
    }
    while i < chars.len()
        invariant
            i <= chars.len(),
            chars@ == s@,
            words@.map_values(|w: String| w@) + split_from(chars@.skip(i as int), pending@)
                == words_of(s@),
        decreases chars.len() - i,
    {
        let c = chars[i];
        let ghost rest = chars@.skip(i as int);
        let ghost before = words@.map_values(|w: String| w@);
        let ghost pend = pending@;
        assert(rest.drop_first() =~= chars@.skip(i + 1));
        assert(rest[0] == c);
        if is_whitespace(c) {
            if !pending.as_str().is_empty() {
                words.push(pending);
                pending = String::new();
                proof {
                    assert(words@.map_values(|w: String| w@) =~= before + seq![pend]);
                    assert(before + (seq![pend] + split_from(chars@.skip(i + 1), Seq::empty()))
                        =~= (before + seq![pend]) + split_from(chars@.skip(i + 1), Seq::empty()));
                }
            } else {
                pending = String::new();
                proof {
                    assert(Seq::<Seq<char>>::empty() + split_from(chars@.skip(i + 1), Seq::empty())
                        =~= split_from(chars@.skip(i + 1), Seq::empty()));
                }
            }
        } else {
            push_char(&mut pending, c);
        }
        i += 1;
    }
    let ghost before = words@.map_values(|w: String| w@);
    let ghost pend = pending@;
    proof {
        assert(chars@.skip(i as int) =~= Seq::<char>::empty());
    }
    if !pending.as_str().is_empty() {
        words.push(pending);
        proof {
            assert(words@.map_values(|w: String| w@) =~= before + seq![pend]);
        }
    } else {
        proof {
            assert(before + Seq::<Seq<char>>::empty() =~= before);
        }
    }
    words
}

impl Name {
    /// The tokens, in order.
    pub closed spec fn tokens(&self) -> Seq<Token> {
        self.tokens@
    }

    /// Each token as its text and whether it is an acronym.
    pub open spec fn view_tokens(&self) -> Seq<(Seq<char>, bool)> {
        self.tokens().map_values(|t: Token| token_view(t))
    }

    /// Splits `raw_name` at white space; each word becomes a token, an acronym
    /// when it has no lower-case letter. Fails on the first word that mixes
    /// lower and upper case.
    pub fn parse(raw_name: &str) -> (r: Result<Self, ParsingError>)
        ensures
            r is Ok <==> forall|k: int|
                0 <= k < words_of(raw_name@).len() ==> !is_mixed(#[trigger] words_of(raw_name@)[k]),
            r matches Ok(name) ==> name.view_tokens() == words_of(raw_name@).map_values(
                |w: Seq<char>| token_of(w),
            ),
            r matches Err(ParsingError::MixedCaseToken { raw_token }) ==> exists|k: int|
                0 <= k < words_of(raw_name@).len() && is_mixed(
                    #[trigger] words_of(raw_name@)[k],
                ) && raw_token@ == words_of(raw_name@)[k] && forall|m: int|
                    0 <= m < k ==> !is_mixed(#[trigger] words_of(raw_name@)[m]),
    {
        let words = split_whitespace(raw_name);
        let ghost ws = words_of(raw_name@);
        assert(words@.len() == ws.len());
        let mut tokens: Vec<Token> = Vec::new();
        let mut j: usize = 0;
        while j < words.len()
            invariant
                j <= words.len(),
                words@.map_values(|w: String| w@) == ws,
                ws == words_of(raw_name@),
                forall|m: int| 0 <= m < j ==> !is_mixed(#[trigger] ws[m]),
                tokens@.map_values(|t: Token| token_view(t)) == ws.take(j as int).map_values(
                    |w: Seq<char>| token_of(w),
                ),
            decreases words.len() - j,
        {
            let word = &words[j];
            assert(word@ == ws[j as int]);
            let (lower, upper) = case_flags(&chars_of(word.as_str()));
            if lower && upper {
                return Err(ParsingError::MixedCaseToken { raw_token: word.clone() });
            }
            let ghost before = tokens@.map_values(|t: Token| token_view(t));
            tokens.push(Token { value: word.clone(), is_acronym: !lower });
            proof {
                assert(ws.take(j + 1) =~= ws.take(j as int).push(ws[j as int]));
                assert(tokens@.map_values(|t: Token| token_view(t)) =~= before.push(
                    token_of(ws[j as int]),
                ));
                assert(ws.take(j + 1).map_values(|w: Seq<char>| token_of(w)) =~= ws.take(
                    j as int,
                ).map_values(|w: Seq<char>| token_of(w)).push(token_of(ws[j as int])));
            }
            j += 1;
        }
        proof {
            assert(ws.take(j as int) =~= ws);
        }
        Ok(Name { tokens })
    }

    pub(crate) fn tokens_ref(&self) -> (r: &Vec<Token>)
        ensures
            r@ == self.tokens(),
    {
        &self.tokens
    }

    pub fn is_empty(&self) -> (r: bool)
        ensures
            r == (self.tokens().len() == 0),
    {
        self.tokens.len() == 0
    }

    /// The tokens, in order.
    pub fn singular(&self) -> (r: std::slice::Iter<'_, Token>)
        ensures
            r.remaining().unref() == self.tokens(),
    {
        let r = self.tokens.iter();
        proof {
            assert(self.tokens@.as_ref().unref() =~= self.tokens@);
        }
        r
    }
}

} // verus!
