//! Simultaneous, non-overlapping, longest-match replacement of a fixed set of
//! patterns, line by line, in a single pass.
use crate::automaton::{
    in_trie, is_prefix, is_suffix, lemma_suffix_self, lemma_suffix_trans, lemma_suffixes_nest,
    NodeId, Tree, ROOT_ID,
};
use crate::text::{append_bytes, lemma_encode_concat, lemma_encode_slice, string_of, Decoded};
use vstd::hash_map::StringHashMap;
use vstd::prelude::*;
use vstd::utf8::{decode_utf8, encode_utf8, valid_utf8};

verus! {

/// Why an input could not be transformed.
#[derive(Debug, Clone, Copy, PartialEq, Eq)]
pub enum TransformError {
    /// The input is not valid UTF-8.
    InvalidEncoding,
}

/// The largest `j <= k` such that the last `j` characters of `w` form a
/// pattern, or 0 when there is none.
pub open spec fn longest_match_upto(patterns: Set<Seq<char>>, w: Seq<char>, k: int) -> int
    decreases k,
{
    if k <= 0 {
        0
    } else if patterns.contains(w.subrange(w.len() - k, w.len() as int)) {
        k
    } else {
        longest_match_upto(patterns, w, k - 1)
    }
}

/// Length of the longest pattern that ends `w`, or 0 when no pattern does.
pub open spec fn longest_match(patterns: Set<Seq<char>>, w: Seq<char>) -> int {
    longest_match_upto(patterns, w, w.len() as int)
}

/// What the transformation writes for `text[i..]`, when `text[start..i]` has
/// been read since the last line start or the last replacement.
///
/// After each character, the longest pattern that ends the text read so far
/// is replaced and reading starts afresh after it; a line terminator that
/// ends no pattern also starts afresh, so no pattern spans two lines.
pub open spec fn scan(dict: Map<Seq<char>, Seq<char>>, text: Seq<char>, start: int, i: int) -> Seq<
    char,
>
    decreases text.len() - i,
{
    if 0 <= start <= i < text.len() {
        let w = text.subrange(start, i + 1);
        let k = longest_match(dict.dom(), w);
        if k > 0 {
            text.subrange(start, i + 1 - k) + dict[w.subrange(w.len() - k, w.len() as int)] + scan(
                dict,
                text,
                i + 1,
                i + 1,
            )
        } else if text[i] == '\n' {
            w + scan(dict, text, i + 1, i + 1)
        } else {
            scan(dict, text, start, i + 1)
        }
    } else {
        text.subrange(start, text.len() as int)
    }
}

/// The text with every pattern occurrence replaced, as `scan` describes.
pub open spec fn transformed(dict: Map<Seq<char>, Seq<char>>, text: Seq<char>) -> Seq<char> {
    scan(dict, text, 0, 0)
}

/// The dictionary that a list of (pattern, replacement) pairs describes: a
/// pattern given twice keeps its last replacement.
pub open spec fn dict_of(pairs: Seq<(String, String)>) -> Map<Seq<char>, Seq<char>>
    decreases pairs.len(),
{
    if pairs.len() == 0 {
        Map::empty()
    } else {
        let last = pairs.last();
        dict_of(pairs.drop_last()).insert(last.0@, last.1@)
    }
}

pub proof fn lemma_longest_match_upto(patterns: Set<Seq<char>>, w: Seq<char>, k: int)
    requires
        0 <= k <= w.len(),
    ensures
        0 <= longest_match_upto(patterns, w, k) <= k,
        longest_match_upto(patterns, w, k) > 0 ==> patterns.contains(
            w.subrange(w.len() - longest_match_upto(patterns, w, k), w.len() as int),
        ),
        forall|j: int|
            longest_match_upto(patterns, w, k) < j <= k ==> !patterns.contains(
                #[trigger] w.subrange(w.len() - j, w.len() as int),
            ),
    decreases k,
{
    if k > 0 && !patterns.contains(w.subrange(w.len() - k, w.len() as int)) {
        lemma_longest_match_upto(patterns, w, k - 1);
    }
}

/// `p` occurs in `text` at position `j`.
pub open spec fn occurs_at(p: Seq<char>, text: Seq<char>, j: int) -> bool {
    0 <= j && j + p.len() <= text.len() && text.subrange(j, j + p.len()) == p
}

proof fn lemma_scan_unchanged(
    dict: Map<Seq<char>, Seq<char>>,
    text: Seq<char>,
    from: int,
    start: int,
    i: int,
)
    requires
        0 <= from <= start <= i <= text.len(),
        forall|p: Seq<char>, j: int|
            dict.contains_key(p) && j >= from ==> !#[trigger] occurs_at(p, text, j),
    ensures
        scan(dict, text, start, i) == text.subrange(start, text.len() as int),
    decreases text.len() - i,
{
    if i < text.len() {
        let w = text.subrange(start, i + 1);
        let k = longest_match(dict.dom(), w);
        lemma_longest_match_upto(dict.dom(), w, w.len() as int);
        if k > 0 {
            let p = w.subrange(w.len() - k, w.len() as int);
            assert(text.subrange(i + 1 - k, i + 1 - k + p.len()) =~= p);
            assert(occurs_at(p, text, i + 1 - k));
        }
        if text[i] == '\n' {
            lemma_scan_unchanged(dict, text, from, i + 1, i + 1);
            assert(w + text.subrange(i + 1, text.len() as int) =~= text.subrange(
                start,
                text.len() as int,
            ));
        } else {
            lemma_scan_unchanged(dict, text, from, start, i + 1);
        }
    }
}

/// When no pattern occurs in a valid UTF-8 input, the transformation hands
/// back exactly the input bytes.
pub proof fn lemma_no_occurrence_unchanged(dict: Map<Seq<char>, Seq<char>>, input: Seq<u8>)
    requires
        valid_utf8(input),
        forall|p: Seq<char>, j: int|
            dict.contains_key(p) ==> !#[trigger] occurs_at(p, decode_utf8(input), j),
    ensures
        transformed(dict, decode_utf8(input)) == decode_utf8(input),
        encode_utf8(transformed(dict, decode_utf8(input))) == input,
{
    let text = decode_utf8(input);
    lemma_scan_unchanged(dict, text, 0, 0, 0);
    assert(text.subrange(0, text.len() as int) =~= text);
    vstd::utf8::decode_utf8_encode_utf8(input);
}

proof fn lemma_scan_single(
    dict: Map<Seq<char>, Seq<char>>,
    text: Seq<char>,
    p: Seq<char>,
    at: int,
    start: int,
    i: int,
)
    requires
        dict.contains_key(p),
        p.len() > 0,
        occurs_at(p, text, at),
        forall|q: Seq<char>, j: int|
            dict.contains_key(q) && #[trigger] occurs_at(q, text, j) ==> q == p && j == at,
        forall|k: int| at <= k < at + p.len() - 1 ==> #[trigger] text[k] != '\n',
        0 <= start <= at,
        start <= i <= at + p.len() - 1,
    ensures
        scan(dict, text, start, i) == text.subrange(start, at) + dict[p] + text.subrange(
            at + p.len(),
            text.len() as int,
        ),
    decreases at + p.len() - 1 - i,
{
    let e = at + p.len() - 1;
    let w = text.subrange(start, i + 1);
    let k = longest_match(dict.dom(), w);
    lemma_longest_match_upto(dict.dom(), w, w.len() as int);
    let tail = text.subrange(at + p.len(), text.len() as int);
    if k > 0 {
        let q = w.subrange(w.len() - k, w.len() as int);
        assert(text.subrange(i + 1 - k, i + 1 - k + q.len()) =~= q);
        assert(occurs_at(q, text, i + 1 - k));
    }
    if i < e {
        if text[i] == '\n' {
            lemma_scan_single(dict, text, p, at, i + 1, i + 1);
            assert(w + (text.subrange(i + 1, at) + dict[p] + tail) =~= text.subrange(start, at)
                + dict[p] + tail);
        } else {
            lemma_scan_single(dict, text, p, at, start, i + 1);
        }
    } else {
        let n = p.len() as int;
        assert(w.subrange(w.len() - n, w.len() as int) =~= p);
        assert(k == n);
        assert forall|q: Seq<char>, j: int|
            dict.contains_key(q) && j >= at + n implies !#[trigger] occurs_at(q, text, j) by {}
        lemma_scan_unchanged(dict, text, at + n, at + n, at + n);
    }
}

/// A text in which a single pattern occurrence is the only one, within one
/// line, comes out with that span replaced and the rest unchanged.
pub proof fn lemma_single_occurrence(
    dict: Map<Seq<char>, Seq<char>>,
    text: Seq<char>,
    p: Seq<char>,
    at: int,
)
    requires
        dict.contains_key(p),
        p.len() > 0,
        occurs_at(p, text, at),
        forall|q: Seq<char>, j: int|
            dict.contains_key(q) && #[trigger] occurs_at(q, text, j) ==> q == p && j == at,
        forall|k: int| at <= k < at + p.len() - 1 ==> #[trigger] text[k] != '\n',
    ensures
        transformed(dict, text) == text.subrange(0, at) + dict[p] + text.subrange(
            at + p.len(),
            text.len() as int,
        ),
{
    lemma_scan_single(dict, text, p, at, 0, 0);
}

/// Of two patterns that both end the text read since the last replacement,
/// the longer one is chosen, never the shorter.
pub proof fn lemma_longest_wins(
    dict: Map<Seq<char>, Seq<char>>,
    w: Seq<char>,
    long: Seq<char>,
    short: Seq<char>,
)
    requires
        dict.contains_key(long),
        dict.contains_key(short),
        is_suffix(long, w),
        is_suffix(short, w),
        short.len() < long.len(),
    ensures
        longest_match(dict.dom(), w) >= long.len(),
        longest_match(dict.dom(), w) != short.len(),
{
    lemma_longest_match_upto(dict.dom(), w, w.len() as int);
    assert(w.subrange(w.len() - long.len(), w.len() as int) == long);
}

proof fn lemma_scan_shift(
    dict: Map<Seq<char>, Seq<char>>,
    a: Seq<char>,
    b: Seq<char>,
    start: int,
    i: int,
)
    requires
        0 <= start <= i <= b.len(),
    ensures
        scan(dict, a + b, a.len() + start, a.len() + i) == scan(dict, b, start, i),
    decreases b.len() - i,
{
    let t = a + b;
    let n = a.len() as int;
    if i < b.len() {
        assert(t.subrange(n + start, n + i + 1) =~= b.subrange(start, i + 1));
        assert(t[n + i] == b[i]);
        let w = b.subrange(start, i + 1);
        let k = longest_match(dict.dom(), w);
        lemma_longest_match_upto(dict.dom(), w, w.len() as int);
        if k > 0 {
            assert(t.subrange(n + start, n + i + 1 - k) =~= b.subrange(start, i + 1 - k));
            lemma_scan_shift(dict, a, b, i + 1, i + 1);
        } else if b[i] == '\n' {
            lemma_scan_shift(dict, a, b, i + 1, i + 1);
        } else {
            lemma_scan_shift(dict, a, b, start, i + 1);
        }
    } else {
        assert(t.subrange(n + start, t.len() as int) =~= b.subrange(start, b.len() as int));
    }
}

proof fn lemma_scan_lines(
    dict: Map<Seq<char>, Seq<char>>,
    a: Seq<char>,
    b: Seq<char>,
    start: int,
    i: int,
)
    requires
        0 <= start <= i < a.len(),
        a.last() == '\n',
    ensures
        scan(dict, a + b, start, i) == scan(dict, a, start, i) + transformed(dict, b),
    decreases a.len() - i,
{
    let t = a + b;
    let n = a.len() as int;
    assert(t.subrange(start, i + 1) =~= a.subrange(start, i + 1));
    assert(t[i] == a[i]);
    let w = a.subrange(start, i + 1);
    let k = longest_match(dict.dom(), w);
    lemma_longest_match_upto(dict.dom(), w, w.len() as int);
    if k > 0 || a[i] == '\n' {
        if i + 1 < n {
            lemma_scan_lines(dict, a, b, i + 1, i + 1);
        } else {
            lemma_scan_shift(dict, a, b, 0, 0);
            assert(a.subrange(n, n) =~= Seq::<char>::empty());
        }
        if k > 0 {
            assert(t.subrange(start, i + 1 - k) =~= a.subrange(start, i + 1 - k));
            let r = dict[w.subrange(w.len() - k, w.len() as int)];
            assert(a.subrange(start, i + 1 - k) + r + (scan(dict, a, i + 1, i + 1) + transformed(dict, b))
                =~= (a.subrange(start, i + 1 - k) + r + scan(dict, a, i + 1, i + 1)) + transformed(dict, b));
        } else {
            assert(w + (scan(dict, a, i + 1, i + 1) + transformed(dict, b)) =~= (w + scan(
                dict,
                a,
                i + 1,
                i + 1,
            )) + transformed(dict, b));
        }
    } else {
        lemma_scan_lines(dict, a, b, start, i + 1);
    }
}

/// Lines are transformed independently: no pattern spans a line terminator.
pub proof fn lemma_lines_independent(dict: Map<Seq<char>, Seq<char>>, a: Seq<char>, b: Seq<char>)
    requires
        a.len() > 0,
        a.last() == '\n',
    ensures
        transformed(dict, a + b) == transformed(dict, a) + transformed(dict, b),
{
    lemma_scan_lines(dict, a, b, 0, 0);
}

/// The text transformed line by line: what each line becomes on its own.
pub open spec fn transformed_lines(dict: Map<Seq<char>, Seq<char>>, lines: Seq<Seq<char>>) -> Seq<
    u8,
>
    decreases lines.len(),
{
    if lines.len() == 0 {
        Seq::empty()
    } else {
        encode_utf8(transformed(dict, lines[0])) + transformed_lines(dict, lines.drop_first())
    }
}

/// A text made of lines, each but the last ending with a line terminator, is
/// written as the concatenation of what each line is written as alone.
pub proof fn lemma_line_by_line(dict: Map<Seq<char>, Seq<char>>, lines: Seq<Seq<char>>)
    requires
        forall|i: int|
            0 <= i < lines.len() - 1 ==> (#[trigger] lines[i]).len() > 0 && lines[i].last() == '\n',
    ensures
        encode_utf8(transformed(dict, lines.flatten())) == transformed_lines(dict, lines),
    decreases lines.len(),
{
    if lines.len() == 0 {
        assert(transformed(dict, lines.flatten()) =~= Seq::<char>::empty());
        assert(encode_utf8(Seq::<char>::empty()) =~= Seq::<u8>::empty());
    } else if lines.len() == 1 {
        lines.lemma_flatten_one_element();
        assert(lines.drop_first().len() == 0);
        assert(transformed_lines(dict, lines.drop_first()) =~= Seq::<u8>::empty());
        assert(encode_utf8(transformed(dict, lines[0])) + Seq::<u8>::empty() =~= encode_utf8(
            transformed(dict, lines[0]),
        ));
    } else {
        let rest = lines.drop_first();
        assert forall|i: int| 0 <= i < rest.len() - 1 implies (#[trigger] rest[i]).len() > 0
            && rest[i].last() == '\n' by {
            assert(rest[i] == lines[i + 1]);
        }
        lemma_line_by_line(dict, rest);
        assert(lines[0].len() > 0 && lines[0].last() == '\n');
        lemma_lines_independent(dict, lines[0], rest.flatten());
        crate::text::lemma_encode_concat(transformed(dict, lines[0]), transformed(dict, rest.flatten()));
        assert(lines.flatten() == lines[0] + rest.flatten());
    }
}

/// What is written is always valid UTF-8: spans are copied and replaced on
/// character boundaries.
pub proof fn lemma_output_is_utf8(dict: Map<Seq<char>, Seq<char>>, text: Seq<char>)
    ensures
        valid_utf8(encode_utf8(transformed(dict, text))),
{
    vstd::utf8::encode_utf8_valid_utf8(transformed(dict, text));
}

proof fn lemma_encode_len_at_least(x: Seq<char>)
    ensures
        encode_utf8(x).len() >= x.len(),
    decreases x.len(),
{
    if x.len() > 0 {
        lemma_encode_len_at_least(x.drop_first());
    }
}

/// Splits the encoded length of `text[a..c]` at `b`.
proof fn lemma_encode_len_split(text: Seq<char>, a: int, b: int, c: int)
    requires
        0 <= a <= b <= c <= text.len(),
    ensures
        encode_utf8(text.subrange(a, c)).len() == encode_utf8(text.subrange(a, b)).len()
            + encode_utf8(text.subrange(b, c)).len(),
{
    assert(text.subrange(a, c) =~= text.subrange(a, b) + text.subrange(b, c));
    crate::text::lemma_encode_concat(text.subrange(a, b), text.subrange(b, c));
}

proof fn lemma_scan_bytes_bounded(
    dict: Map<Seq<char>, Seq<char>>,
    text: Seq<char>,
    bound: nat,
    start: int,
    i: int,
)
    requires
        0 <= start <= i <= text.len(),
        bound >= 1,
        forall|p: Seq<char>| #[trigger] dict.contains_key(p) ==> encode_utf8(dict[p]).len() <= bound,
    ensures
        encode_utf8(scan(dict, text, start, i)).len() <= bound * encode_utf8(
            text.subrange(start, text.len() as int),
        ).len(),
    decreases text.len() - i,
{
    let n = text.len() as int;
    let whole = encode_utf8(text.subrange(start, n)).len() as int;
    if i < n {
        let w = text.subrange(start, i + 1);
        let k = longest_match(dict.dom(), w);
        lemma_longest_match_upto(dict.dom(), w, w.len() as int);
        if k > 0 {
            let key = w.subrange(w.len() - k, w.len() as int);
            let r = dict[key];
            let verbatim = text.subrange(start, i + 1 - k);
            lemma_scan_bytes_bounded(dict, text, bound, i + 1, i + 1);
            lemma_encode_concat(verbatim, r);
            lemma_encode_concat(verbatim + r, scan(dict, text, i + 1, i + 1));
            lemma_encode_len_split(text, start, i + 1 - k, n);
            lemma_encode_len_split(text, i + 1 - k, i + 1, n);
            assert(text.subrange(i + 1 - k, i + 1).len() == k);
            lemma_encode_len_at_least(text.subrange(i + 1 - k, i + 1));
            let a = encode_utf8(verbatim).len() as int;
            let m = encode_utf8(text.subrange(i + 1 - k, i + 1)).len() as int;
            let rest_in = encode_utf8(text.subrange(i + 1, n)).len() as int;
            let rest_out = encode_utf8(scan(dict, text, i + 1, i + 1)).len() as int;
            let rl = encode_utf8(r).len() as int;
            assert(a + rl + rest_out <= bound * (a + m + rest_in)) by (nonlinear_arith)
                requires
                    bound >= 1,
                    m >= 1,
                    a >= 0,
                    rl <= bound,
                    rest_out <= bound * rest_in,
            ;
        } else if text[i] == '\n' {
            lemma_scan_bytes_bounded(dict, text, bound, i + 1, i + 1);
            lemma_encode_concat(w, scan(dict, text, i + 1, i + 1));
            lemma_encode_len_split(text, start, i + 1, n);
            let a = encode_utf8(w).len() as int;
            let rest_in = encode_utf8(text.subrange(i + 1, n)).len() as int;
            let rest_out = encode_utf8(scan(dict, text, i + 1, i + 1)).len() as int;
            assert(a + rest_out <= bound * (a + rest_in)) by (nonlinear_arith)
                requires
                    bound >= 1,
                    a >= 0,
                    rest_out <= bound * rest_in,
            ;
        } else {
            lemma_scan_bytes_bounded(dict, text, bound, start, i + 1);
        }
    } else {
        assert(whole <= bound * whole) by (nonlinear_arith)
            requires
                bound >= 1,
                whole >= 0,
        ;
    }
}

/// In bytes: with every replacement at most `bound >= 1` bytes long, the
/// output is at most `bound` times as long as the input.
pub proof fn lemma_output_bytes_bounded(dict: Map<Seq<char>, Seq<char>>, input: Seq<u8>, bound: nat)
    requires
        valid_utf8(input),
        bound >= 1,
        forall|p: Seq<char>| #[trigger] dict.contains_key(p) ==> encode_utf8(dict[p]).len() <= bound,
    ensures
        encode_utf8(transformed(dict, decode_utf8(input))).len() <= bound * input.len(),
{
    let text = decode_utf8(input);
    lemma_scan_bytes_bounded(dict, text, bound, 0, 0);
    assert(text.subrange(0, text.len() as int) =~= text);
    vstd::utf8::decode_utf8_encode_utf8(input);
}

proof fn lemma_scan_bounded(
    dict: Map<Seq<char>, Seq<char>>,
    text: Seq<char>,
    bound: nat,
    start: int,
    i: int,
)
    requires
        0 <= start <= i <= text.len(),
        forall|p: Seq<char>| #[trigger] dict.contains_key(p) ==> dict[p].len() <= bound,
    ensures
        scan(dict, text, start, i).len() <= (bound + 1) * (text.len() - start),
    decreases text.len() - i,
{
    let n = text.len() as int;
    if i < n {
        let w = text.subrange(start, i + 1);
        let k = longest_match(dict.dom(), w);
        lemma_longest_match_upto(dict.dom(), w, w.len() as int);
        if k > 0 {
            lemma_scan_bounded(dict, text, bound, i + 1, i + 1);
            let rest = scan(dict, text, i + 1, i + 1).len() as int;
            let r = dict[w.subrange(w.len() - k, w.len() as int)].len() as int;
            assert(r <= bound);
            assert((i + 1 - k - start) + r + rest <= (bound + 1) * (n - start)) by (nonlinear_arith)
                requires
                    k >= 1,
                    r <= bound,
                    rest <= (bound + 1) * (n - (i + 1)),
                    start <= i < n,
            ;
        } else if text[i] == '\n' {
            lemma_scan_bounded(dict, text, bound, i + 1, i + 1);
            let rest = scan(dict, text, i + 1, i + 1).len() as int;
            assert((i + 1 - start) + rest <= (bound + 1) * (n - start)) by (nonlinear_arith)
                requires
                    rest <= (bound + 1) * (n - (i + 1)),
                    start <= i < n,
            ;
        } else {
            lemma_scan_bounded(dict, text, bound, start, i + 1);
        }
    } else {
        assert(n - start <= (bound + 1) * (n - start)) by (nonlinear_arith)
            requires
                start <= n,
        ;
    }
}

/// A single pass: the output is at most linear in the input, whatever the
/// replacements hold (a pattern may occur in its own replacement).
pub proof fn lemma_output_bounded(dict: Map<Seq<char>, Seq<char>>, text: Seq<char>, bound: nat)
    requires
        forall|p: Seq<char>| #[trigger] dict.contains_key(p) ==> dict[p].len() <= bound,
    ensures
        transformed(dict, text).len() <= (bound + 1) * text.len(),
{
    lemma_scan_bounded(dict, text, bound, 0, 0);
}

/// Transforms text with a fixed dictionary of patterns and replacements.
pub trait Transform {
    /// The patterns, each with its replacement.
    spec fn dictionary(&self) -> Map<Seq<char>, Seq<char>>;

    /// Appends to `output` the UTF-8 bytes of `input` with the patterns
    /// replaced; fails, writing nothing, when `input` is not valid UTF-8.
    fn transform(&self, input: &[u8], output: &mut Vec<u8>) -> (r: Result<(), TransformError>)
        ensures
            valid_utf8(input@) ==> r is Ok && final(output)@ == old(output)@ + encode_utf8(
                transformed(self.dictionary(), decode_utf8(input@)),
            ),
            !valid_utf8(input@) ==> r == Err::<(), TransformError>(TransformError::InvalidEncoding)
                && final(output)@ == old(output)@,
    ;
}

/// The automaton of a dictionary, with the dictionary itself.
pub struct Transformer {
    map: StringHashMap<String>,
    tree: Tree,
}

impl Transformer {
    #[verifier::type_invariant]
    spec fn inv(&self) -> bool {
        &&& self.tree.wf(self.map@.dom())
        &&& self.tree.linked()
    }

    /// Builds the transformer of the given (pattern, replacement) pairs;
    /// patterns must not be empty.
    pub fn from_map(map: Vec<(String, String)>) -> (r: Self)
        requires
            forall|i: int| 0 <= i < map.len() ==> (#[trigger] map[i]).0@.len() > 0,
        ensures
            r.dictionary() == dict_of(map@),
    {
        let mut dict: StringHashMap<String> = StringHashMap::new();
        let mut patterns: Vec<String> = Vec::new();
        let mut i: usize = 0;
        while i < map.len()
            invariant
                i <= map.len(),
                forall|j: int| 0 <= j < map.len() ==> (#[trigger] map[j]).0@.len() > 0,
                dict@.map_values(|v: String| v@) == dict_of(map@.take(i as int)),
                patterns.len() == i,
                forall|j: int| 0 <= j < i ==> (#[trigger] patterns[j])@ == map[j].0@,
                dict@.dom() == Set::new(
                    |s: Seq<char>| exists|j: int| 0 <= j < i && (#[trigger] patterns[j])@ == s,
                ),
            decreases map.len() - i,
        {
            let key = map[i].0.clone();
            let value = map[i].1.clone();
            let ghost before = dict@;
            let ghost before_patterns = patterns@;
            patterns.push(map[i].0.clone());
            dict.insert(key, value);
            proof {
                assert(map@.take(i + 1).drop_last() =~= map@.take(i as int));
                assert(dict@.map_values(|v: String| v@) =~= before.map_values(|v: String| v@).insert(
                    map[i as int].0@,
                    map[i as int].1@,
                ));
                assert(dict@.dom() =~= Set::new(
                    |s: Seq<char>| exists|j: int| 0 <= j < i + 1 && (#[trigger] patterns[j])@ == s,
                )) by {
                    assert forall|s: Seq<char>| dict@.dom().contains(s) implies exists|j: int|
                        0 <= j < i + 1 && (#[trigger] patterns[j])@ == s by {
                        if s != map[i as int].0@ {
                            assert(before.dom().contains(s));
                            let j = choose|j: int| 0 <= j < i && (#[trigger] before_patterns[j])@ == s;
                            assert(patterns[j]@ == s);
                        } else {
                            assert(patterns[i as int]@ == s);
                        }
                    }
                }
            }
            i += 1;
        }
        proof {
            assert(map@.take(i as int) =~= map@);
            assert forall|j: int| 0 <= j < patterns.len() implies (#[trigger] patterns[j])@.len() > 0 by {
                assert(map[j].0@.len() > 0);
            }
        }
        let tree = Tree::new(&patterns);
        Transformer { map: dict, tree }
    }
}

/// A transformation in progress: the transformer and one decoded input.
struct Transformation<'a> {
    transformer: &'a Transformer,
    buffer: &'a [u8],
    decoded: Decoded,
}

/// Matches of the automaton are the longest pattern suffixes.
proof fn lemma_match_is_longest(
    tree: &Tree,
    patterns: Set<Seq<char>>,
    node: int,
    w: Seq<char>,
    r: Option<NodeId>,
)
    requires
        tree.wf(patterns),
        tree.tracks(node, w),
        match r {
            Some(g) => {
                &&& tree.valid_id(g as int)
                &&& tree.nodes[g as int].in_dict
                &&& is_suffix(tree.word(g as int), tree.word(node))
                &&& forall|m: int|
                    tree.valid_id(m) && tree.nodes[m].in_dict && #[trigger] is_suffix(
                        tree.word(m),
                        tree.word(node),
                    ) ==> tree.word(m).len() <= tree.word(g as int).len()
            },
            None => forall|m: int|
                tree.valid_id(m) && tree.nodes[m].in_dict ==> !#[trigger] is_suffix(
                    tree.word(m),
                    tree.word(node),
                ),
        },
    ensures
        match r {
            Some(g) => {
                &&& longest_match(patterns, w) == tree.word(g as int).len()
                &&& longest_match(patterns, w) > 0
                &&& w.subrange(w.len() - longest_match(patterns, w), w.len() as int) == tree.word(
                    g as int,
                )
            },
            None => longest_match(patterns, w) == 0,
        },
{
    let k = longest_match(patterns, w);
    lemma_longest_match_upto(patterns, w, w.len() as int);
    let nw = tree.word(node);
    if k > 0 {
        let p = w.subrange(w.len() - k, w.len() as int);
        assert(is_prefix(p, p)) by {
            assert(p.subrange(0, p.len() as int) =~= p);
        }
        assert(in_trie(patterns, p));
        let m = choose|m: int| tree.valid_id(m) && #[trigger] tree.word(m) == p;
        assert(tree.nodes[m].in_dict);
        assert(is_suffix(p, w));
        lemma_suffixes_nest(p, nw, w);
        assert(is_suffix(tree.word(m), nw));
    }
    if let Some(g) = r {
        let gw = tree.word(g as int);
        lemma_suffix_trans(gw, nw, w);
        assert(gw.len() > 0) by {
            if gw.len() == 0 {
                assert(gw =~= Seq::<char>::empty());
            }
        }
        assert(w.subrange(w.len() - gw.len(), w.len() as int) == gw);
        if k < gw.len() {
            assert(!patterns.contains(w.subrange(w.len() - gw.len(), w.len() as int)));
        }
    }
}

/// The root is the state for an empty text.
proof fn lemma_root_tracks_empty(tree: &Tree, patterns: Set<Seq<char>>, text: Seq<char>, pos: int)
    requires
        tree.wf(patterns),
        0 <= pos <= text.len(),
    ensures
        tree.tracks(ROOT_ID as int, text.subrange(pos, pos)),
{
    let e = text.subrange(pos, pos);
    lemma_suffix_self(e);
    assert forall|m: int| tree.valid_id(m) && #[trigger] is_suffix(tree.word(m), e) implies tree.word(
        m,
    ).len() <= tree.word(0).len() by {}
}

impl<'a> Transformation<'a> {
    spec fn text(&self) -> Seq<char> {
        self.decoded.chars@
    }

    /// Decodes `buffer`; `None` when it is not valid UTF-8.
    fn new(transformer: &'a Transformer, buffer: &'a [u8]) -> (r: Option<Self>)
        ensures
            r is Some <==> valid_utf8(buffer@),
            r matches Some(t) ==> {
                &&& t.transformer == transformer
                &&& t.buffer == buffer
                &&& t.decoded.matches(buffer@)
                &&& t.text() == decode_utf8(buffer@)
            },
    {
        match Decoded::new(buffer) {
            Some(decoded) => Some(Transformation { transformer, buffer, decoded }),
            None => None,
        }
    }

    /// Writes the transformed text: each character moves the automaton; the
    /// longest pattern ending there, if any, is written as its replacement
    /// and the automaton starts again at the root, as it does at each line end.
    fn run(&self, output: &mut Vec<u8>)
        requires
            self.decoded.matches(self.buffer@),
        ensures
            final(output)@ == old(output)@ + encode_utf8(
                transformed(self.transformer.dictionary(), self.text()),
            ),
    {
        let transformer = self.transformer;
        proof {
            use_type_invariant(transformer);
        }
        let ghost dict = transformer.dictionary();
        let ghost patterns = transformer.map@.dom();
        let ghost text = self.text();
        let chars = &self.decoded.chars;
        let char_ixs = &self.decoded.char_ixs;
        let buffer = self.buffer;
        let tree = &transformer.tree;
        let ghost mut emitted: Seq<char> = Seq::empty();
        let mut output_position: usize = 0;
        let mut node_id: NodeId = ROOT_ID;
        let mut i: usize = 0;
        proof {
            assert(dict.dom() == patterns);
            lemma_root_tracks_empty(tree, patterns, text, 0);
        }
        while i < chars.len()
            invariant
                tree.wf(patterns),
                tree.linked(),
                dict == transformer.dictionary(),
                dict.dom() == patterns,
                patterns == transformer.map@.dom(),
                dict == transformer.map@.map_values(|v: String| v@),
                text == chars@,
                self.decoded.matches(buffer@),
                chars == &self.decoded.chars,
                char_ixs == &self.decoded.char_ixs,
                buffer == self.buffer,
                0 <= output_position <= i <= chars.len(),
                tree.tracks(node_id as int, text.subrange(output_position as int, i as int)),
                output@ == old(output)@ + encode_utf8(emitted),
                emitted + scan(dict, text, output_position as int, i as int) == transformed(dict, text),
            decreases chars.len() - i,
        {
            let c = chars[i];
            let ghost w = text.subrange(output_position as int, i as int);
            let ghost wc = text.subrange(output_position as int, i + 1);
            assert(wc =~= w.push(c));
            node_id = tree.step(node_id, c, Ghost(w), Ghost(patterns));
            let found = tree.matched(node_id, Ghost(patterns));
            proof {
                lemma_match_is_longest(tree, patterns, node_id as int, wc, found);
            }
            match found {
                Some(dict_node) => {
                    let depth = tree.nodes[dict_node].depth;
                    let start = i + 1 - depth;
                    let end = i + 1;
                    let ghost k = longest_match(patterns, wc);
                    proof {
                        lemma_encode_slice(text, output_position as int, start as int);
                        assert(text.subrange(start as int, end as int) =~= wc.subrange(
                            wc.len() - k,
                            wc.len() as int,
                        ));
                    }
                    append_bytes(output, &buffer[char_ixs[output_position]..char_ixs[start]]);
                    let key = string_of(chars, start, end);
                    let replacement = match transformer.map.get(key.as_str()) {
                        Some(r) => r,
                        None => {
                            proof {
                                assert(tree.nodes[dict_node as int].in_dict);
                                assert(false);
                            }
                            return ;
                        },
                    };
                    append_bytes(output, replacement.as_str().as_bytes());
                    proof {
                        let verbatim = text.subrange(output_position as int, start as int);
                        let repl = dict[key@];
                        assert(repl == replacement@);
                        lemma_encode_concat(emitted, verbatim);
                        lemma_encode_concat(emitted + verbatim, repl);
                        assert(emitted + scan(dict, text, output_position as int, i as int) == emitted + (
                        verbatim + repl + scan(dict, text, end as int, end as int)));
                        assert(emitted + (verbatim + repl + scan(dict, text, end as int, end as int))
                            =~= emitted + verbatim + repl + scan(dict, text, end as int, end as int));
                        emitted = emitted + verbatim + repl;
                    }
                    output_position = end;
                    node_id = ROOT_ID;
                    proof {
                        lemma_root_tracks_empty(tree, patterns, text, end as int);
                    }
                },
                None => {
                    if c == '\n' {
                        let end = i + 1;
                        proof {
                            lemma_encode_slice(text, output_position as int, end as int);
                        }
                        append_bytes(output, &buffer[char_ixs[output_position]..char_ixs[end]]);
                        proof {
                            lemma_encode_concat(emitted, wc);
                            assert(emitted + (wc + scan(dict, text, end as int, end as int)) =~= (
                            emitted + wc) + scan(dict, text, end as int, end as int));
                            emitted = emitted + wc;
                        }
                        output_position = end;
                        node_id = ROOT_ID;
                        proof {
                            lemma_root_tracks_empty(tree, patterns, text, end as int);
                        }
                    }
                },
            }
            i += 1;
        }
        proof {
            lemma_encode_slice(text, output_position as int, i as int);
            assert(text.take(i as int) =~= text);
        }
        append_bytes(output, &buffer[char_ixs[output_position]..char_ixs[i]]);
        proof {
            let rest = text.subrange(output_position as int, i as int);
            lemma_encode_concat(emitted, rest);
        }
    }
}

/// The transformer of the given (pattern, replacement) pairs; patterns must
/// not be empty.
pub fn default_transformer(map: Vec<(String, String)>) -> (r: Transformer)
    requires
        forall|i: int| 0 <= i < map.len() ==> (#[trigger] map[i]).0@.len() > 0,
    ensures
        r.dictionary() == dict_of(map@),
{
    Transformer::from_map(map)
}

impl Transform for Transformer {
    closed spec fn dictionary(&self) -> Map<Seq<char>, Seq<char>> {
        self.map@.map_values(|v: String| v@)
    }

    fn transform(&self, input: &[u8], output: &mut Vec<u8>) -> (r: Result<(), TransformError>) {
        match Transformation::new(self, input) {
            Some(transformation) => {
                transformation.run(output);
                Ok(())
            },
            None => Err(TransformError::InvalidEncoding),
        }
    }
}

} // verus!
