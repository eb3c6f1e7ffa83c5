//! Strings as UTF-8 bytes: character boundaries, substrings and concatenation.
use vstd::prelude::*;
use vstd::string::*;
use vstd::utf8::*;

verus! {

/// Byte `i` of `b` begins a character, or `i` is the end of `b`.
pub open spec fn starts_char(b: Seq<u8>, i: int) -> bool {
    0 <= i <= b.len() && (i == b.len() || !is_continuation_byte(b[i]))
}

/// Encoding a concatenation concatenates the encodings.
pub proof fn lemma_encode_utf8_concat(a: Seq<char>, b: Seq<char>)
    ensures
        encode_utf8(a + b) == encode_utf8(a) + encode_utf8(b),
    decreases a.len(),
{
    if a.len() == 0 {
        assert(a + b =~= b);
        assert(encode_utf8(a) + encode_utf8(b) =~= encode_utf8(b));
    } else {
        assert((a + b).drop_first() =~= a.drop_first() + b);
        assert((a + b)[0] == a[0]);
        lemma_encode_utf8_concat(a.drop_first(), b);
        assert(encode_utf8(a + b) =~= encode_utf8(a) + encode_utf8(b));
    }
}

/// The encoding determines the characters.
pub proof fn lemma_encode_utf8_injective(a: Seq<char>, b: Seq<char>)
    requires
        encode_utf8(a) == encode_utf8(b),
    ensures
        a == b,
{
    encode_utf8_decode_utf8(a);
    encode_utf8_decode_utf8(b);
}

/// The bytes of a string are valid UTF-8.
pub proof fn lemma_str_bytes_valid(s: &str)
    ensures
        valid_utf8(s.spec_bytes()),
{
    encode_utf8_valid_utf8(s@);
}

/// In valid UTF-8, a position that starts a character is a character boundary.
pub proof fn lemma_starts_char_boundary(b: Seq<u8>, i: int)
    requires
        valid_utf8(b),
        starts_char(b, i),
    ensures
        is_char_boundary(b, i),
{
    if i == b.len() {
        is_char_boundary_start_end_of_seq(b);
    } else {
        is_char_boundary_iff_not_is_continuation_byte(b, i);
    }
}

/// In valid UTF-8, the byte after an ASCII byte begins a character.
pub proof fn lemma_after_ascii_starts_char(b: Seq<u8>, k: int)
    requires
        valid_utf8(b),
        0 <= k < b.len(),
        b[k] <= 0x7fu8,
    ensures
        starts_char(b, k + 1),
{
    if k + 1 < b.len() {
        is_char_boundary_iff_not_is_continuation_byte(b, k);
        valid_utf8_split(b, k);
        let sub = b.subrange(k, b.len() as int);
        assert(sub[0] == b[k]);
        assert(valid_first_scalar(sub));
        assert(length_of_first_scalar(sub) == 1);
        let rest = pop_first_scalar(sub);
        assert(rest =~= b.subrange(k + 1, b.len() as int));
        assert(rest.len() > 0);
        assert(valid_utf8(rest));
        assert(valid_first_scalar(rest));
        assert(rest[0] == b[k + 1]);
    }
}

/// A character start of `b` at or after `from` is a character start of `b[from..]`.
pub proof fn lemma_starts_char_suffix(b: Seq<u8>, from: int, i: int)
    requires
        0 <= from <= i,
        starts_char(b, i),
    ensures
        starts_char(b.subrange(from, b.len() as int), i - from),
{
    let sub = b.subrange(from, b.len() as int);
    if i < b.len() {
        assert(sub[i - from] == b[i]);
    }
}

/// The text of `s` between byte offsets `from` and `to`.
pub fn substring(s: &str, from: usize, to: usize) -> (res: String)
    requires
        from <= to,
        starts_char(s.spec_bytes(), from as int),
        starts_char(s.spec_bytes(), to as int),
    ensures
        encode_utf8(res@) == s.spec_bytes().subrange(from as int, to as int),
{
    let ghost b = s.spec_bytes();
    proof {
        lemma_str_bytes_valid(s);
        lemma_starts_char_boundary(b, from as int);
    }
    let (_, rest) = s.split_at(from);
    proof {
        assert(rest.spec_bytes() =~= b.subrange(from as int, b.len() as int));
        lemma_starts_char_suffix(b, from as int, to as int);
        lemma_str_bytes_valid(rest);
        lemma_starts_char_boundary(rest.spec_bytes(), to - from);
    }
    let (mid, _) = rest.split_at(to - from);
    proof {
        assert(mid.spec_bytes() =~= b.subrange(from as int, to as int));
    }
    mid.to_owned()
}

/// Appends `other` to `out`, as bytes.
pub fn push_text(out: &mut String, other: &str)
    ensures
        encode_utf8(final(out)@) == encode_utf8(old(out)@) + other.spec_bytes(),
{
    out.append(other);
    proof {
        lemma_encode_utf8_concat(old(out)@, other@);
    }
}

/// Splits `s` at byte offset `mid` into the text before and the text after it.
pub fn split_text<'a>(s: &'a str, mid: usize) -> (res: (&'a str, &'a str))
    requires
        starts_char(s.spec_bytes(), mid as int),
    ensures
        res.0.spec_bytes() == s.spec_bytes().subrange(0, mid as int),
        res.1.spec_bytes() == s.spec_bytes().subrange(mid as int, s.spec_bytes().len() as int),
{
    proof {
        lemma_str_bytes_valid(s);
        lemma_starts_char_boundary(s.spec_bytes(), mid as int);
    }
    s.split_at(mid)
}

/// Whether two strings hold the same text.
pub fn text_equals(a: &str, b: &str) -> (res: bool)
    ensures
        res == (a@ == b@),
{
    let x = a.as_bytes();
    let y = b.as_bytes();
    if x.len() != y.len() {
        proof {
            if a@ == b@ {
                assert(a.spec_bytes() == b.spec_bytes());
            }
        }
        return false;
    }
    let n = x.len();
    let mut i: usize = 0;
    while i < n
        invariant
            n == x@.len(),
            n == y@.len(),
            x@ == a.spec_bytes(),
            y@ == b.spec_bytes(),
            i <= n,
            forall|j: int| 0 <= j < i ==> x@[j] == y@[j],
        decreases n - i,
    {
        if x[i] != y[i] {
            proof {
                if a@ == b@ {
                    assert(a.spec_bytes() == b.spec_bytes());
                }
            }
            return false;
        }
        i = i + 1;
    }
    proof {
        assert(x@ =~= y@);
        lemma_encode_utf8_injective(a@, b@);
    }
    true
}

/// The bytes of an ASCII string are its characters, one byte each.
pub proof fn lemma_ascii_literal_bytes(s: &str)
    requires
        is_ascii_chars(s@),
    ensures
        s.spec_bytes().len() == s@.len(),
        forall|i: int| 0 <= i < s@.len() ==> #[trigger] s.spec_bytes()[i] == s@[i] as u8,
        forall|i: int| 0 <= i < s@.len() ==> #[trigger] s.spec_bytes()[i] <= 0x7fu8,
{
    is_ascii_chars_encode_utf8(s@);
    assert forall|i: int| 0 <= i < s@.len() implies #[trigger] s.spec_bytes()[i] <= 0x7fu8 by {
        let c = s@[i];
        assert(c <= '\u{7f}');
        let u = c as u32;
        assert(u <= 0x7f);
        assert((u as u8) <= 0x7f) by (bit_vector)
            requires
                u <= 0x7f,
        ;
        assert(c as u8 == u as u8);
    }
}

} // verus!
