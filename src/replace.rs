//! A plain replacer: scans the text left to right and, at each position,
//! replaces the first pattern found there, or copies one character.
use crate::automaton::is_prefix;
use crate::text::{append_bytes, chars_of, lemma_encode_concat, lemma_encode_slice, Decoded};
use crate::transform::TransformError;
use vstd::prelude::*;
use vstd::utf8::{decode_utf8, encode_utf8, valid_utf8};

verus! {

/// Index of the last of `pairs[..k]` whose non-empty pattern begins `rest`,
/// or -1 when there is none.
pub open spec fn last_match(pairs: Seq<(Seq<char>, Seq<char>)>, rest: Seq<char>, k: int) -> int
    decreases k,
{
    if k <= 0 {
        -1
    } else if pairs[k - 1].0.len() > 0 && is_prefix(pairs[k - 1].0, rest) {
        k - 1
    } else {
        last_match(pairs, rest, k - 1)
    }
}

/// `text` with, at each position, the pattern found there replaced, or one
/// character copied. A pattern given twice keeps its last replacement;
/// empty patterns never match.
pub open spec fn replaced(pairs: Seq<(Seq<char>, Seq<char>)>, text: Seq<char>) -> Seq<char>
    decreases text.len(),
{
    if text.len() == 0 {
        Seq::empty()
    } else {
        let j = last_match(pairs, text, pairs.len() as int);
        if 0 <= j < pairs.len() && 0 < pairs[j].0.len() <= text.len() {
            pairs[j].1 + replaced(pairs, text.skip(pairs[j].0.len() as int))
        } else {
            seq![text[0]] + replaced(pairs, text.drop_first())
        }
    }
}

proof fn lemma_last_match(pairs: Seq<(Seq<char>, Seq<char>)>, rest: Seq<char>, k: int)
    requires
        0 <= k <= pairs.len(),
    ensures
        -1 <= last_match(pairs, rest, k) < k,
        last_match(pairs, rest, k) >= 0 ==> pairs[last_match(pairs, rest, k)].0.len() > 0
            && is_prefix(pairs[last_match(pairs, rest, k)].0, rest),
        forall|j: int|
            last_match(pairs, rest, k) < j < k ==> !(pairs[j].0.len() > 0 && #[trigger] is_prefix(
                pairs[j].0,
                rest,
            )),
    decreases k,
{
    if k > 0 {
        lemma_last_match(pairs, rest, k - 1);
    }
}

/// Replaces patterns in a text.
pub trait Replacer {
    /// The (pattern, replacement) pairs, in the order given.
    spec fn pairs(&self) -> Seq<(Seq<char>, Seq<char>)>;

    /// Appends to `output` the UTF-8 bytes of `input` with the patterns
    /// replaced; fails, writing nothing, when `input` is not valid UTF-8.
    fn transform(&self, input: &[u8], output: &mut Vec<u8>) -> (r: Result<(), TransformError>)
        ensures
            valid_utf8(input@) ==> r is Ok && final(output)@ == old(output)@ + encode_utf8(
                replaced(self.pairs(), decode_utf8(input@)),
            ),
            !valid_utf8(input@) ==> r == Err::<(), TransformError>(TransformError::InvalidEncoding)
                && final(output)@ == old(output)@,
    ;
}

/// The plain replacer of a list of (pattern, replacement) pairs.
pub struct SimpleReplacer {
    map: Vec<(String, String)>,
}

pub open spec fn pair_view(p: (String, String)) -> (Seq<char>, Seq<char>) {
    (p.0@, p.1@)
}

impl SimpleReplacer {
    pub fn from_map(map: Vec<(String, String)>) -> (r: Self)
        ensures
            r.pairs() == map@.map_values(|p: (String, String)| pair_view(p)),
    {
        SimpleReplacer { map }
    }

    /// Whether `pattern` begins `chars[at..]`.
    fn starts_with(chars: &Vec<char>, at: usize, pattern: &Vec<char>) -> (r: bool)
        requires
            at <= chars.len(),
        ensures
            r == is_prefix(pattern@, chars@.skip(at as int)),
    {
        if pattern.len() > chars.len() - at {
            return false;
        }
        let mut k: usize = 0;
        while k < pattern.len()
            invariant
                k <= pattern.len() <= chars.len() - at,
                forall|m: int| 0 <= m < k ==> pattern@[m] == chars@[at + m],
            decreases pattern.len() - k,
        {
            if pattern[k] != chars[at + k] {
                proof {
                    assert(chars@.skip(at as int).subrange(0, pattern@.len() as int)[k as int]
                        != pattern@[k as int]);
                }
                return false;
            }
            k += 1;
        }
        assert(chars@.skip(at as int).subrange(0, pattern@.len() as int) =~= pattern@);
        true
    }
}

impl Replacer for SimpleReplacer {
    closed spec fn pairs(&self) -> Seq<(Seq<char>, Seq<char>)> {
        self.map@.map_values(|p: (String, String)| pair_view(p))
    }

    fn transform(&self, input: &[u8], output: &mut Vec<u8>) -> (r: Result<(), TransformError>) {
        let decoded = match Decoded::new(input) {
            Some(d) => d,
            None => return Err(TransformError::InvalidEncoding),
        };
        let ghost pairs = self.pairs();
        let ghost text = decoded.chars@;
        let mut patterns: Vec<Vec<char>> = Vec::new();
        let mut p: usize = 0;
        while p < self.map.len()
            invariant
                p <= self.map.len(),
                pairs == self.pairs(),
                patterns.len() == p,
                forall|m: int| 0 <= m < p ==> (#[trigger] patterns[m])@ == pairs[m].0,
            decreases self.map.len() - p,
        {
            patterns.push(chars_of(self.map[p].0.as_str()));
            p += 1;
        }
        let chars = &decoded.chars;
        let char_ixs = &decoded.char_ixs;
        let ghost mut emitted: Seq<char> = Seq::empty();
        let mut i: usize = 0;
        proof {
            assert(text.skip(0) =~= text);
        }
        while i < chars.len()
            invariant
                i <= chars.len(),
                text == chars@,
                decoded.matches(input@),
                chars == &decoded.chars,
                char_ixs == &decoded.char_ixs,
                pairs == self.pairs(),
                pairs.len() == patterns.len(),
                forall|m: int| 0 <= m < patterns.len() ==> (#[trigger] patterns[m])@ == pairs[m].0,
                output@ == old(output)@ + encode_utf8(emitted),
                emitted + replaced(pairs, text.skip(i as int)) == replaced(pairs, text),
            decreases chars.len() - i,
        {
            let ghost rest = text.skip(i as int);
            let mut j = patterns.len();
            let mut found = false;
            while j > 0 && !found
                invariant
                    j <= patterns.len(),
                    i < chars.len(),
                    text == chars@,
                    rest == text.skip(i as int),
                    pairs.len() == patterns.len(),
                    forall|m: int| 0 <= m < patterns.len() ==> (#[trigger] patterns[m])@ == pairs[m].0,
                    found ==> last_match(pairs, rest, pairs.len() as int) == j,
                    !found ==> last_match(pairs, rest, pairs.len() as int) == last_match(pairs, rest, j as int),
                decreases j + (if found { 0int } else { 1int }),
            {
                let m = j - 1;
                if patterns[m].len() > 0 && SimpleReplacer::starts_with(chars, i, &patterns[m]) {
                    found = true;
                    j = m;
                } else {
                    j = m;
                }
            }
            proof {
                lemma_last_match(pairs, rest, pairs.len() as int);
                assert(rest.len() > 0);
                assert(rest[0] == text[i as int]);
            }
            let ghost before = emitted;
            if found {
                let replacement = &self.map[j].1;
                append_bytes(output, replacement.as_str().as_bytes());
                proof {
                    let k = pairs[j as int].0.len() as int;
                    assert(rest.skip(k) =~= text.skip(i + k));
                    lemma_encode_concat(emitted, pairs[j as int].1);
                    assert(emitted + replaced(pairs, rest) =~= (emitted + pairs[j as int].1) + replaced(pairs, text.skip(i + k)));
                    emitted = emitted + pairs[j as int].1;
                }
                i = i + patterns[j].len();
            } else {
                proof {
                    lemma_encode_slice(text, i as int, i + 1);
                    assert(text.subrange(i as int, i + 1) =~= seq![text[i as int]]);
                    assert(rest.drop_first() =~= text.skip(i + 1));
                    lemma_encode_concat(emitted, seq![text[i as int]]);
                    assert(emitted + replaced(pairs, rest) =~= (emitted + seq![text[i as int]]) + replaced(pairs, text.skip(i + 1)));
                    emitted = emitted + seq![text[i as int]];
                }
                append_bytes(output, &input[char_ixs[i]..char_ixs[i + 1]]);
                i = i + 1;
            }
        }
        proof {
            assert(text.skip(i as int) =~= Seq::<char>::empty());
            assert(emitted + Seq::<char>::empty() =~= emitted);
        }
        Ok(())
    }
}

/// The plain replacer of the given (pattern, replacement) pairs.
pub fn default_replacer(map: Vec<(String, String)>) -> (r: SimpleReplacer)
    ensures
        r.pairs() == map@.map_values(|p: (String, String)| pair_view(p)),
{
    SimpleReplacer::from_map(map)
}

} // verus!
