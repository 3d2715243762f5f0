//! Characters of strings, and their UTF-8 encoding.
use vstd::prelude::*;
use vstd::utf8::{decode_utf8, encode_scalar, encode_utf8, valid_utf8};

verus! {

/// Relies on `std::str::from_utf8`: it accepts exactly the valid UTF-8 byte
/// sequences, and then returns a string made of those bytes.
#[verifier::external_body]
fn str_from_utf8(bytes: &[u8]) -> (r: Option<&str>)
    ensures
        r is Some <==> valid_utf8(bytes@),
        r matches Some(s) ==> encode_utf8(s@) == bytes@,
{
    match std::str::from_utf8(bytes) {
        Ok(s) => Some(s),
        Err(_) => None,
    }
}

/// Relies on `String::push`: appends one character.
#[verifier::external_body]
pub(crate) fn push_char(s: &mut String, c: char)
    ensures
        final(s)@ == old(s)@.push(c),
{
    s.push(c)
}

/// The characters of `s`, in order.
pub fn chars_of(s: &str) -> (r: Vec<char>)
    ensures
        r@ == s@,
{
    let mut v: Vec<char> = Vec::new();
    for c in it: s.chars()
        invariant
            v@ == it.seq().take(it.index() as int),
            it.seq() == s@,
    {
        v.push(c);
    }
    v
}

/// A string holding `chars[from..to]`.
pub(crate) fn string_of(chars: &Vec<char>, from: usize, to: usize) -> (r: String)
    requires
        from <= to <= chars.len(),
    ensures
        r@ == chars@.subrange(from as int, to as int),
{
    let mut s = String::new();
    let mut i = from;
    while i < to
        invariant
            from <= i <= to <= chars.len(),
            s@ == chars@.subrange(from as int, i as int),
        decreases to - i,
    {
        push_char(&mut s, chars[i]);
        assert(chars@.subrange(from as int, i + 1) =~= chars@.subrange(from as int, i as int).push(
            chars@[i as int],
        ));
        i += 1;
    }
    s
}

/// Appends `bytes` to `out`.
pub(crate) fn append_bytes(out: &mut Vec<u8>, bytes: &[u8])
    ensures
        final(out)@ == old(out)@ + bytes@,
{
    let mut i: usize = 0;
    while i < bytes.len()
        invariant
            i <= bytes@.len(),
            out@ == old(out)@ + bytes@.take(i as int),
        decreases bytes.len() - i,
    {
        out.push(bytes[i]);
        assert(bytes@.take(i + 1) =~= bytes@.take(i as int).push(bytes@[i as int]));
        i += 1;
    }
    assert(bytes@.take(i as int) =~= bytes@);
}

/// Number of bytes in the UTF-8 encoding of `c`.
pub(crate) fn utf8_width(c: char) -> (r: usize)
    ensures
        r == encode_scalar(c as u32).len(),
{
    proof {
        vstd::utf8::char_is_scalar(c);
    }
    let u = c as u32;
    if u <= 0x7f {
        1
    } else if u <= 0x7ff {
        2
    } else if u <= 0xffff {
        3
    } else {
        4
    }
}

pub proof fn lemma_encode_concat(a: Seq<char>, b: Seq<char>)
    ensures
        encode_utf8(a + b) == encode_utf8(a) + encode_utf8(b),
    decreases a.len(),
{
    if a.len() == 0 {
        assert(a + b =~= b);
        assert(encode_utf8(a) + encode_utf8(b) =~= encode_utf8(b));
    } else {
        assert((a + b).drop_first() =~= a.drop_first() + b);
        assert((a + b)[0] == a[0]);
        lemma_encode_concat(a.drop_first(), b);
        assert(encode_utf8(a + b) =~= encode_utf8(a) + encode_utf8(b));
    }
}

/// The bytes of `chars[from..to]` are the bytes between their offsets.
pub proof fn lemma_encode_slice(chars: Seq<char>, from: int, to: int)
    requires
        0 <= from <= to <= chars.len(),
    ensures
        encode_utf8(chars).subrange(
            encode_utf8(chars.take(from)).len() as int,
            encode_utf8(chars.take(to)).len() as int,
        ) == encode_utf8(chars.subrange(from, to)),
        encode_utf8(chars.take(from)).len() <= encode_utf8(chars.take(to)).len() <= encode_utf8(
            chars,
        ).len(),
{
    assert(chars.take(to) =~= chars.take(from) + chars.subrange(from, to));
    assert(chars =~= chars.take(to) + chars.skip(to));
    lemma_encode_concat(chars.take(from), chars.subrange(from, to));
    lemma_encode_concat(chars.take(to), chars.skip(to));
    let e_from = encode_utf8(chars.take(from));
    let e_mid = encode_utf8(chars.subrange(from, to));
    let e_rest = encode_utf8(chars.skip(to));
    assert(encode_utf8(chars).subrange(e_from.len() as int, (e_from.len() + e_mid.len()) as int)
        =~= e_mid);
}

/// A valid UTF-8 text, split into characters, with the byte offset at which
/// each character starts and, last, the length in bytes.
pub(crate) struct Decoded {
    pub(crate) chars: Vec<char>,
    pub(crate) char_ixs: Vec<usize>,
}

impl Decoded {
    pub(crate) open spec fn matches(&self, bytes: Seq<u8>) -> bool {
        &&& encode_utf8(self.chars@) == bytes
        &&& self.char_ixs.len() == self.chars.len() + 1
        &&& forall|k: int|
            0 <= k <= self.chars.len() ==> #[trigger] self.char_ixs@[k] == encode_utf8(
                self.chars@.take(k),
            ).len()
    }

    /// Splits `bytes` into characters; `None` when they are not valid UTF-8.
    pub(crate) fn new(bytes: &[u8]) -> (r: Option<Decoded>)
        ensures
            r is Some <==> valid_utf8(bytes@),
            r matches Some(d) ==> d.matches(bytes@) && d.chars@ == decode_utf8(bytes@),
    {
        let s = match str_from_utf8(bytes) {
            Some(s) => s,
            None => return None,
        };
        proof {
            vstd::utf8::encode_utf8_decode_utf8(s@);
        }
        let chars = chars_of(s);
        let total = bytes.len();
        let mut char_ixs: Vec<usize> = Vec::new();
        let mut offset: usize = 0;
        let mut i: usize = 0;
        proof {
            assert(chars@.take(0) =~= Seq::<char>::empty());
        }
        while i < chars.len()
            invariant
                i <= chars.len(),
                encode_utf8(chars@) == bytes@,
                total == bytes@.len(),
                char_ixs.len() == i,
                offset == encode_utf8(chars@.take(i as int)).len(),
                forall|k: int|
                    0 <= k < i ==> #[trigger] char_ixs@[k] == encode_utf8(chars@.take(k)).len(),
            decreases chars.len() - i,
        {
            char_ixs.push(offset);
            proof {
                lemma_encode_slice(chars@, i as int, i + 1);
                assert(chars@.subrange(i as int, i + 1) =~= seq![chars@[i as int]]);
                let one = seq![chars@[i as int]];
                assert(one.drop_first() =~= Seq::<char>::empty());
                assert(encode_utf8(one.drop_first()) =~= Seq::<u8>::empty());
                assert(encode_utf8(one) =~= encode_scalar(chars@[i as int] as u32));
                assert(chars@.take(i as int) + chars@.subrange(i as int, i + 1) =~= chars@.take(i + 1));
                lemma_encode_concat(chars@.take(i as int), chars@.subrange(i as int, i + 1));
            }
            offset = offset + utf8_width(chars[i]);
            i += 1;
        }
        char_ixs.push(offset);
        proof {
            assert(chars@.take(i as int) =~= chars@);
        }
        Some(Decoded { chars, char_ixs })
    }
}

} // verus!
