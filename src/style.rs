//! Naming styles: how the tokens of a name are cased and joined.
use crate::name::{token_view, Name, Token};
use crate::text::chars_of;
use vstd::prelude::*;

verus! {

/// What `str::to_lowercase` makes of a string.
pub uninterp spec fn lower_of(s: Seq<char>) -> Seq<char>;

/// What `str::to_uppercase` makes of a string.
pub uninterp spec fn upper_of(s: Seq<char>) -> Seq<char>;

/// What `char::to_lowercase` makes of a character.
pub uninterp spec fn char_lower_of(c: char) -> Seq<char>;

/// What `char::to_uppercase` makes of a character.
pub uninterp spec fn char_upper_of(c: char) -> Seq<char>;

/// Relies on `str::to_lowercase`: the result depends on the characters alone.
#[verifier::external_body]
fn to_lowercase(s: &str) -> (r: String)
    ensures
        r@ == lower_of(s@),
{
    s.to_lowercase()
}

/// Relies on `str::to_uppercase`: the result depends on the characters alone.
#[verifier::external_body]
fn to_uppercase(s: &str) -> (r: String)
    ensures
        r@ == upper_of(s@),
{
    s.to_uppercase()
}

/// Relies on `char::to_lowercase`: the characters of the lower-case mapping of `c`.
#[verifier::external_body]
fn char_to_lowercase(c: char) -> (r: String)
    ensures
        r@ == char_lower_of(c),
{
    c.to_lowercase().collect()
}

/// Relies on `char::to_uppercase`: the characters of the upper-case mapping of `c`.
#[verifier::external_body]
fn char_to_uppercase(c: char) -> (r: String)
    ensures
        r@ == char_upper_of(c),
{
    c.to_uppercase().collect()
}

/// How one token is cased.
#[derive(Debug, Clone, Copy, PartialEq, Eq)]
pub enum Case {
    Lower,
    Upper,
    /// Upper-case first character, lower-case rest.
    Title,
}

/// Each character of `s` in lower case.
pub open spec fn lower_chars(s: Seq<char>) -> Seq<char>
    decreases s.len(),
{
    if s.len() == 0 {
        Seq::empty()
    } else {
        lower_chars(s.drop_last()) + char_lower_of(s.last())
    }
}

/// `s` in the given case.
pub open spec fn cased(case: Case, s: Seq<char>) -> Seq<char> {
    match case {
        Case::Lower => lower_of(s),
        Case::Upper => upper_of(s),
        Case::Title => if s.len() == 0 {
            Seq::empty()
        } else {
            char_upper_of(s[0]) + lower_chars(s.drop_first())
        },
    }
}

impl Case {
    pub fn format(&self, s: &str) -> (r: String)
        ensures
            r@ == cased(*self, s@),
    {
        match self {
            Case::Lower => to_lowercase(s),
            Case::Upper => to_uppercase(s),
            Case::Title => {
                let chars = chars_of(s);
                if chars.len() == 0 {
                    return String::new();
                }
                let mut result = char_to_uppercase(chars[0]);
                let mut i: usize = 1;
                proof {
                    assert(s@.drop_first().subrange(0, 0) =~= Seq::<char>::empty());
                    assert(result@ =~= char_upper_of(s@[0]) + Seq::<char>::empty());
                }
                while i < chars.len()
                    invariant
                        1 <= i <= chars.len(),
                        chars@ == s@,
                        result@ == char_upper_of(s@[0]) + lower_chars(
                            s@.drop_first().subrange(0, i - 1),
                        ),
                    decreases chars.len() - i,
                {
                    let lower = char_to_lowercase(chars[i]);
                    let ghost before = result@;
                    result.append(lower.as_str());
                    proof {
                        let rest = s@.drop_first();
                        assert(rest.subrange(0, i as int).drop_last() =~= rest.subrange(0, i - 1));
                        assert(rest.subrange(0, i as int).last() == chars@[i as int]);
                        assert(result@ =~= char_upper_of(s@[0]) + lower_chars(
                            rest.subrange(0, i as int),
                        ));
                    }
                    i += 1;
                }
                proof {
                    assert(s@.drop_first().subrange(0, i - 1) =~= s@.drop_first());
                }
                result
            },
        }
    }
}

/// The parts joined, with `sep` between two neighbours.
pub open spec fn join(parts: Seq<Seq<char>>, sep: Seq<char>) -> Seq<char>
    decreases parts.len(),
{
    if parts.len() == 0 {
        Seq::empty()
    } else if parts.len() == 1 {
        parts[0]
    } else {
        join(parts.drop_last(), sep) + sep + parts.last()
    }
}

/// Formats a sequence of tokens into one name.
pub trait NamingStyle {
    /// The name that the tokens (text, acronym) become.
    spec fn formats(&self, tokens: Seq<(Seq<char>, bool)>) -> Seq<char>;

    fn format(&self, tokens: &[Token]) -> (r: String)
        ensures
            r@ == self.formats(tokens@.map_values(|t: Token| token_view(t))),
    ;
}

/// A style: one case for the first token, one for the others, acronyms
/// possibly in upper case, and a separator.
pub struct SimpleNamingStyle {
    pub first_case: Case,
    pub other_case: Case,
    pub upper_acronyms: bool,
    pub separator: String,
}

/// The case of token `i`: upper for an acronym when acronyms are kept in
/// upper case, else `first` for the first token and `other` for the rest.
pub open spec fn token_case(first: Case, other: Case, upper_acronyms: bool, i: int, acronym: bool) -> Case {
    if upper_acronyms && acronym {
        Case::Upper
    } else if i == 0 {
        first
    } else {
        other
    }
}

/// Each token cased as the style says.
pub open spec fn styled_parts(
    first: Case,
    other: Case,
    upper_acronyms: bool,
    tokens: Seq<(Seq<char>, bool)>,
) -> Seq<Seq<char>> {
    Seq::new(
        tokens.len(),
        |i: int| cased(token_case(first, other, upper_acronyms, i, tokens[i].1), tokens[i].0),
    )
}

/// The name that `tokens` become in a style.
pub open spec fn styled(
    first: Case,
    other: Case,
    upper_acronyms: bool,
    sep: Seq<char>,
    tokens: Seq<(Seq<char>, bool)>,
) -> Seq<char> {
    join(styled_parts(first, other, upper_acronyms, tokens), sep)
}

/// The name that `tokens` become in style `k` of `styles`.
pub open spec fn standard_style(k: int, tokens: Seq<(Seq<char>, bool)>) -> Seq<char> {
    if k == 0 {
        styled(Case::Lower, Case::Lower, false, seq!['_'], tokens)
    } else if k == 1 {
        styled(Case::Upper, Case::Upper, false, seq!['_'], tokens)
    } else if k == 2 {
        styled(Case::Lower, Case::Title, true, Seq::empty(), tokens)
    } else {
        styled(Case::Title, Case::Title, true, Seq::empty(), tokens)
    }
}

impl NamingStyle for SimpleNamingStyle {
    open spec fn formats(&self, tokens: Seq<(Seq<char>, bool)>) -> Seq<char> {
        styled(self.first_case, self.other_case, self.upper_acronyms, self.separator@, tokens)
    }

    fn format(&self, tokens: &[Token]) -> (r: String) {
        let ghost views = tokens@.map_values(|t: Token| token_view(t));
        let ghost parts = styled_parts(self.first_case, self.other_case, self.upper_acronyms, views);
        let mut formatted: Vec<String> = Vec::new();
        let mut i: usize = 0;
        while i < tokens.len()
            invariant
                i <= tokens@.len(),
                views == tokens@.map_values(|t: Token| token_view(t)),
                parts == styled_parts(self.first_case, self.other_case, self.upper_acronyms, views),
                formatted@.map_values(|s: String| s@) == parts.take(i as int),
            decreases tokens.len() - i,
        {
            let token = &tokens[i];
            let case = if self.upper_acronyms && token.is_acronym {
                Case::Upper
            } else if i == 0 {
                self.first_case
            } else {
                self.other_case
            };
            let ghost before = formatted@.map_values(|s: String| s@);
            formatted.push(case.format(token.value.as_str()));
            proof {
                assert(parts.take(i + 1) =~= parts.take(i as int).push(parts[i as int]));
                assert(formatted@.map_values(|s: String| s@) =~= before.push(parts[i as int]));
            }
            i += 1;
        }
        proof {
            assert(parts.take(i as int) =~= parts);
        }
        join_parts(&formatted, self.separator.as_str())
    }
}

/// The parts joined, with `separator` between two neighbours.
pub fn join_parts(parts: &Vec<String>, separator: &str) -> (r: String)
    ensures
        r@ == join(parts@.map_values(|s: String| s@), separator@),
{
    let ghost views = parts@.map_values(|s: String| s@);
    let mut result = String::new();
    let mut i: usize = 0;
    proof {
        assert(views.take(0) =~= Seq::<Seq<char>>::empty());
    }
    while i < parts.len()
        invariant
            i <= parts@.len(),
            views == parts@.map_values(|s: String| s@),
            result@ == join(views.take(i as int), separator@),
        decreases parts.len() - i,
    {
        let ghost before = result@;
        if i > 0 {
            result.append(separator);
        }
        result.append(parts[i].as_str());
        proof {
            assert(views.take(i + 1).drop_last() =~= views.take(i as int));
            if i == 0 {
                assert(result@ =~= views.take(1)[0]);
            } else {
                assert(result@ =~= before + separator@ + views[i as int]);
            }
        }
        i += 1;
    }
    proof {
        assert(views.take(i as int) =~= views);
    }
    result
}

/// The styles a name is renamed in: snake_case, UPPER_CASE, camelCase and
/// TitleCase.
pub fn styles() -> (r: Vec<SimpleNamingStyle>)
    ensures
        r.len() == 4,
        forall|k: int, t: Seq<(Seq<char>, bool)>|
            0 <= k < 4 ==> #[trigger] r[k].formats(t) == standard_style(k, t),
        r[0].first_case == Case::Lower && r[0].other_case == Case::Lower && !r[0].upper_acronyms
            && r[0].separator@ == seq!['_'],
        r[1].first_case == Case::Upper && r[1].other_case == Case::Upper && !r[1].upper_acronyms
            && r[1].separator@ == seq!['_'],
        r[2].first_case == Case::Lower && r[2].other_case == Case::Title && r[2].upper_acronyms
            && r[2].separator@ == Seq::<char>::empty(),
        r[3].first_case == Case::Title && r[3].other_case == Case::Title && r[3].upper_acronyms
            && r[3].separator@ == Seq::<char>::empty(),
{
    let mut underscore = String::new();
    crate::text::push_char(&mut underscore, '_');
    let snake = SimpleNamingStyle {
        first_case: Case::Lower,
        other_case: Case::Lower,
        upper_acronyms: false,
        separator: underscore.clone(),
    };
    let upper = SimpleNamingStyle {
        first_case: Case::Upper,
        other_case: Case::Upper,
        upper_acronyms: false,
        separator: underscore,
    };
    let camel = SimpleNamingStyle {
        first_case: Case::Lower,
        other_case: Case::Title,
        upper_acronyms: true,
        separator: String::new(),
    };
    let title = SimpleNamingStyle {
        first_case: Case::Title,
        other_case: Case::Title,
        upper_acronyms: true,
        separator: String::new(),
    };
    let r = vec![snake, upper, camel, title];
    proof {
        assert forall|k: int, t: Seq<(Seq<char>, bool)>|
            0 <= k < 4 implies #[trigger] r[k].formats(t) == standard_style(k, t) by {
            assert(r[k].separator@ == (if k < 2 { seq!['_'] } else { Seq::<char>::empty() }));
        }
    }
    r
}

/// The (old, new) pair of formatted names, one per style: the dictionary
/// that renames `old` into `new`.
pub fn rename_map(old: &Name, new: &Name) -> (r: Vec<(String, String)>)
    ensures
        r.len() == 4,
        forall|k: int|
            0 <= k < 4 ==> (#[trigger] r[k]).0@ == standard_style(k, old.view_tokens())
                && r[k].1@ == standard_style(k, new.view_tokens()),
{
    let all = styles();
    let mut r: Vec<(String, String)> = Vec::new();
    let mut k: usize = 0;
    while k < all.len()
        invariant
            k <= all.len(),
            all.len() == 4,
            r.len() == k,
            forall|j: int, t: Seq<(Seq<char>, bool)>|
                0 <= j < 4 ==> #[trigger] all[j].formats(t) == standard_style(j, t),
            forall|j: int|
                0 <= j < k ==> (#[trigger] r[j]).0@ == standard_style(j, old.view_tokens())
                    && r[j].1@ == standard_style(j, new.view_tokens()),
        decreases all.len() - k,
    {
        let style = &all[k];
        let from = style.format(old.tokens_ref().as_slice());
        let to = style.format(new.tokens_ref().as_slice());
        let ghost before = r@;
        r.push((from, to));
        proof {
            assert(all[k as int].formats(old.view_tokens()) == standard_style(k as int, old.view_tokens()));
            assert(all[k as int].formats(new.view_tokens()) == standard_style(k as int, new.view_tokens()));
            assert forall|j: int| 0 <= j < k + 1 implies (#[trigger] r[j]).0@ == standard_style(j, old.view_tokens())
                && r[j].1@ == standard_style(j, new.view_tokens()) by {
                if j < k {
                    assert(r[j] == before[j]);
                }
            }
        }
        k += 1;
    }
    r
}

} // verus!
