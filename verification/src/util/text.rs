use vstd::prelude::*;
use vstd::utf8::*;
use vstd::string::StringSliceAdditionalSpecFns;

verus! {

broadcast use {vstd::string::group_string_axioms, vstd::utf8::encode_utf8_decode_utf8, vstd::utf8::encode_utf8_valid_utf8};

/// The UTF-8 encoding of `a + b` is that of `a` followed by that of `b`.
proof fn lemma_encode_concat(a: Seq<char>, b: Seq<char>)
    ensures
        encode_utf8(a + b) == encode_utf8(a) + encode_utf8(b),
    decreases a.len(),
{
    if a.len() == 0 {
        assert(a + b =~= b);
        assert(encode_utf8(a) =~= Seq::<u8>::empty());
        assert(encode_utf8(a) + encode_utf8(b) =~= encode_utf8(b));
    } else {
        assert((a + b).drop_first() =~= a.drop_first() + b);
        assert((a + b)[0] == a[0]);
        lemma_encode_concat(a.drop_first(), b);
        assert(encode_utf8(a + b) =~= encode_scalar(a[0] as u32) + encode_utf8(a.drop_first() + b));
        assert(encode_utf8(a + b) =~= encode_utf8(a) + encode_utf8(b));
    }
}

/// The end of the encoding of `a` is a character boundary in that of `a + b`.
proof fn lemma_boundary(a: Seq<char>, b: Seq<char>)
    ensures
        is_char_boundary(encode_utf8(a + b), encode_utf8(a).len() as int),
    decreases a.len(),
{
    let bytes = encode_utf8(a + b);
    if a.len() > 0 {
        lemma_encode_concat(a, b);
        lemma_encode_concat(a.drop_first(), b);
        assert((a + b).drop_first() =~= a.drop_first() + b);
        assert((a + b)[0] == a[0]);
        encode_utf8_first_scalar(a + b);
        let n = encode_scalar(a[0] as u32).len() as int;
        assert(n > 0);
        assert(encode_utf8(a) =~= encode_scalar(a[0] as u32) + encode_utf8(a.drop_first()));
        assert(pop_first_scalar(bytes) =~= encode_utf8(a.drop_first() + b));
        lemma_boundary(a.drop_first(), b);
    }
}

/// The number of bytes in the UTF-8 encoding of `c`, as `char::len_utf8` gives it.
pub fn utf8_len(c: char) -> (n: usize)
    ensures
        n == encode_scalar(c as u32).len(),
        1 <= n <= 4,
{
    proof {
        char_is_scalar(c);
    }
    let v = c as u32;
    if v < 0x80 {
        1
    } else if v < 0x800 {
        2
    } else if v < 0x10000 {
        3
    } else {
        4
    }
}

/// A string together with its characters and the byte offset at which each
/// character starts, so that runs of characters can be cut out of it.
pub struct Text<'a> {
    src: &'a str,
    chars: Vec<char>,
    offsets: Vec<usize>,
}

impl<'a> View for Text<'a> {
    type V = Seq<char>;

    /// The characters of the string.
    closed spec fn view(&self) -> Seq<char> {
        self.chars@
    }
}

impl<'a> Text<'a> {
    /// The string that the text was made from.
    pub closed spec fn source(&self) -> &'a str {
        self.src
    }

    /// The characters are those of the string, and the offsets are where each
    /// character starts in its UTF-8 bytes, with the total length last.
    pub closed spec fn wf(&self) -> bool {
        &&& self.chars@ == self.src@
        &&& self.offsets@.len() == self.chars@.len() + 1
        &&& forall|i: int|
            0 <= i <= self.chars@.len() ==> #[trigger] self.offsets@[i] == encode_utf8(
                self.src@.take(i),
            ).len()
    }

    /// Splits `src` into characters and records where each one starts.
    pub fn new(src: &'a str) -> (res: Self)
        ensures
            res.wf(),
            res@ == src@,
            res.source() == src,
    {
        let bytes = src.as_bytes();
        let total = bytes.len();
        let mut chars: Vec<char> = Vec::new();
        let mut offsets: Vec<usize> = Vec::new();
        let mut off: usize = 0;
        offsets.push(0);
        assert(src@.take(0) =~= Seq::<char>::empty());
        for c in it: src.chars()
            invariant
                it.seq() == src@,
                chars@ == src@.take(it.index() as int),
                total == encode_utf8(src@).len(),
                off == encode_utf8(src@.take(it.index() as int)).len(),
                offsets@.len() == it.index() + 1,
                forall|i: int|
                    0 <= i <= it.index() ==> #[trigger] offsets@[i] == encode_utf8(src@.take(i)).len(),
        {
            let ghost i = it.index() as int;
            proof {
                assert(src@.take(i + 1) =~= src@.take(i) + seq![src@[i]]);
                lemma_encode_concat(src@.take(i), seq![src@[i]]);
                assert(encode_utf8(seq![src@[i]]) =~= encode_scalar(src@[i] as u32)) by {
                    assert(seq![src@[i]].drop_first() =~= Seq::<char>::empty());
                    assert(encode_utf8(Seq::<char>::empty()) =~= Seq::<u8>::empty());
                    assert(encode_utf8(seq![src@[i]]) == encode_scalar(src@[i] as u32) + encode_utf8(Seq::<char>::empty()));
                }
                assert(src@ =~= src@.take(i + 1) + src@.skip(i + 1));
                lemma_encode_concat(src@.take(i + 1), src@.skip(i + 1));
            }
            let n = utf8_len(c);
            off = off + n;
            chars.push(c);
            offsets.push(off);
        }
        assert(chars@ =~= src@);
        Text { src, chars, offsets }
    }

    /// The number of characters.
    pub fn len(&self) -> (n: usize)
        requires
            self.wf(),
        ensures
            n == self@.len(),
    {
        self.chars.len()
    }

    /// The characters, to be read by index.
    pub fn chars(&self) -> (res: &Vec<char>)
        requires
            self.wf(),
        ensures
            res@ == self@,
    {
        &self.chars
    }

    /// The characters `i..j` as a slice of the string that the text was made from.
    pub fn slice(&self, i: usize, j: usize) -> (res: &'a str)
        requires
            self.wf(),
            i <= j <= self@.len(),
        ensures
            res@ == self@.subrange(i as int, j as int),
    {
        let ghost s = self.src@;
        let b0 = self.offsets[i];
        let b1 = self.offsets[j];
        proof {
            assert(s =~= s.take(i as int) + s.skip(i as int));
            lemma_encode_concat(s.take(i as int), s.skip(i as int));
            lemma_boundary(s.take(i as int), s.skip(i as int));
            let mid = s.subrange(i as int, j as int);
            let rest = s.skip(j as int);
            assert(s.skip(i as int) =~= mid + rest);
            assert(s.take(j as int) =~= s.take(i as int) + mid);
            lemma_encode_concat(s.take(i as int), mid);
            lemma_encode_concat(mid, rest);
            lemma_boundary(mid, rest);
        }
        let (_, tail) = self.src.split_at(b0);
        proof {
            let t = s.skip(i as int);
            assert(tail.spec_bytes() =~= encode_utf8(t));
            assert(tail@ == t) by {
                assert(decode_utf8(encode_utf8(tail@)) == tail@);
            }
        }
        let (mid, _) = tail.split_at(b1 - b0);
        proof {
            let m = s.subrange(i as int, j as int);
            assert(mid.spec_bytes() =~= encode_utf8(m));
            assert(mid@ == m) by {
                assert(decode_utf8(encode_utf8(mid@)) == mid@);
            }
        }
        mid
    }
}

} // verus!
