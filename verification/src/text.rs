//! Text as sequences of characters, measured in the bytes of its UTF-8 form.

use vstd::prelude::*;
use vstd::string::*;
use vstd::utf8::*;

verus! {

/// The end of a line.
pub const NEWLINE: &'static str = "\n";

/// The text of a string that may be missing.
pub open spec fn name_text(name: Option<String>) -> Option<Seq<char>> {
    match name {
        Some(n) => Some(n@),
        None => None,
    }
}

/// The views of a sequence of strings.
pub open spec fn texts(strings: Seq<String>) -> Seq<Seq<char>> {
    strings.map_values(|s: String| s@)
}

/// The number of bytes that `s` takes in UTF-8: what `str::len` reports.
pub open spec fn byte_len(s: Seq<char>) -> nat {
    encode_utf8(s).len()
}

/// The number of bytes that one character takes in UTF-8.
pub open spec fn char_width(c: char) -> nat {
    encode_scalar(c as u32).len()
}

/// `n` copies of `c`.
pub open spec fn repeated(c: char, n: nat) -> Seq<char> {
    Seq::new(n, |i: int| c)
}

/// A character takes between one and four bytes.
pub proof fn lemma_char_width_bounds(c: char)
    ensures
        1 <= char_width(c) <= 4,
{
}

/// A space takes one byte.
pub proof fn lemma_space_width()
    ensures
        char_width(' ') == 1,
{
}

/// The byte length of a concatenation is the sum of the byte lengths.
pub proof fn lemma_byte_len_concat(a: Seq<char>, b: Seq<char>)
    ensures
        byte_len(a + b) == byte_len(a) + byte_len(b),
    decreases a.len(),
{
    if a.len() == 0 {
        assert(a + b =~= b);
    } else {
        assert((a + b).drop_first() =~= a.drop_first() + b);
        lemma_byte_len_concat(a.drop_first(), b);
    }
}

/// Appending one character adds its width.
pub proof fn lemma_byte_len_push(s: Seq<char>, c: char)
    ensures
        byte_len(s.push(c)) == byte_len(s) + char_width(c),
{
    let one = seq![c];
    assert(s.push(c) =~= s + one);
    lemma_byte_len_concat(s, one);
    assert(one.drop_first() =~= Seq::<char>::empty());
    assert(encode_utf8(one) =~= encode_scalar(c as u32)) by {
        reveal_with_fuel(encode_utf8, 2);
    }
}

/// `n` copies of a character take `n` times its width.
pub proof fn lemma_byte_len_repeated(c: char, n: nat)
    ensures
        byte_len(repeated(c, n)) == n * char_width(c),
    decreases n,
{
    if n == 0 {
        assert(repeated(c, 0) =~= Seq::<char>::empty());
    } else {
        let m = (n - 1) as nat;
        lemma_byte_len_repeated(c, m);
        assert(repeated(c, n) =~= repeated(c, m).push(c));
        lemma_byte_len_push(repeated(c, m), c);
        assert(n * char_width(c) == m * char_width(c) + char_width(c)) by (nonlinear_arith)
            requires
                n == m + 1,
        ;
    }
}

/// The longest text, in bytes, to which a character is appended: short
/// enough that the buffer, which may double when it grows, stays within
/// `isize::MAX` bytes.
pub open spec fn max_push_len() -> int {
    isize::MAX / 4
}

/// `String::push` appends `c`: the text afterwards is the text before with
/// `c` at its end. `String::push` panics where the new capacity would
/// exceed `isize::MAX` bytes, so the text must be short enough for the
/// buffer to grow.
pub assume_specification[ String::push ](s: &mut String, c: char)
    requires
        byte_len(old(s)@) < max_push_len(),
    ensures
        final(s)@ == old(s)@.push(c),
;

/// The length of `s` in bytes.
pub fn byte_length(s: &str) -> (n: usize)
    ensures
        n == byte_len(s@),
{
    s.as_bytes().len()
}

/// Whether two strings hold the same text.
pub fn str_equal(a: &str, b: &str) -> (same: bool)
    ensures
        same == (a@ == b@),
{
    let x = a.as_bytes();
    let y = b.as_bytes();
    if x.len() != y.len() {
        return false;
    }
    let mut i: usize = 0;
    while i < x.len()
        invariant
            x@ == encode_utf8(a@),
            y@ == encode_utf8(b@),
            x@.len() == y@.len(),
            0 <= i <= x@.len(),
            forall|j: int| 0 <= j < i ==> x@[j] == y@[j],
        decreases x@.len() - i,
    {
        if x[i] != y[i] {
            return false;
        }
        i += 1;
    }
    proof {
        // equal encodings decode to equal texts
        assert(x@ =~= y@);
        encode_utf8_decode_utf8(a@);
        encode_utf8_decode_utf8(b@);
    }
    true
}

/// How many fill characters of `width` bytes bring `len` bytes up to at
/// least `target` bytes: none if `len` is there already, else the least
/// count that reaches it.
pub open spec fn pad_count(len: nat, target: nat, width: nat) -> nat {
    if len >= target || width == 0 {
        0
    } else {
        (((target - len) + width - 1) / (width as int)) as nat
    }
}

/// `s` followed by as many `fill` as bring it up to `length` bytes.
pub open spec fn padded(s: Seq<char>, length: nat, fill: char) -> Seq<char> {
    s + repeated(fill, pad_count(byte_len(s), length, char_width(fill)))
}

/// `k` is the least count of `width`-byte characters that reaches `target`.
proof fn lemma_pad_count_least(len: nat, target: nat, width: nat, k: nat)
    requires
        width > 0,
        len + k * width >= target,
        k > 0 ==> len + (k - 1) * width < target,
    ensures
        k == pad_count(len, target, width),
{
    if len >= target {
        if k > 0 {
            assert((k - 1) * width >= 0) by (nonlinear_arith)
                requires
                    k >= 1,
                    width > 0,
            ;
        }
    } else {
        let d = target - len;
        let w = width as int;
        assert(k > 0) by {
            if k == 0 {
                assert(k * width == 0) by (nonlinear_arith)
                    requires
                        k == 0,
                ;
            }
        }
        assert((d + w - 1) / w == k) by (nonlinear_arith)
            requires
                w > 0,
                d > 0,
                k * w >= d,
                (k - 1) * w < d,
        ;
    }
}

/// Appends `fill` to `old_str` until it is at least `length` bytes long.
pub fn string_pad(old_str: String, length: usize, fill: char) -> (s: String)
    requires
        length <= max_push_len(),
    ensures
        s@ == padded(old_str@, length as nat, fill),
{
    let mut s = old_str;
    let ghost k: nat = 0;
    proof {
        lemma_char_width_bounds(fill);
        assert(s@ =~= old_str@ + repeated(fill, 0));
        assert(0 * char_width(fill) == 0) by (nonlinear_arith);
    }
    while byte_length(s.as_str()) < length
        invariant
            length <= max_push_len(),
            1 <= char_width(fill) <= 4,
            s@ == old_str@ + repeated(fill, k),
            byte_len(s@) == byte_len(old_str@) + k * char_width(fill),
            k > 0 ==> byte_len(old_str@) + (k - 1) * char_width(fill) < length,
        decreases
            if length > byte_len(s@) {
                length - byte_len(s@)
            } else {
                0
            },
    {
        proof {
            lemma_byte_len_push(s@, fill);
            assert(s@.push(fill) =~= old_str@ + repeated(fill, k + 1));
            assert((k + 1) * char_width(fill) == k * char_width(fill) + char_width(fill))
                by (nonlinear_arith);
        }
        s.push(fill);
        proof {
            k = k + 1;
        }
    }
    proof {
        lemma_pad_count_least(byte_len(old_str@), length as nat, char_width(fill), k);
    }
    s
}

} // verus!
