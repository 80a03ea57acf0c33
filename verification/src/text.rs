//! Strings as bytes and as characters: where a character of a string lies
//! among its bytes, and searching a string for a character.

use vstd::prelude::*;
use vstd::string::StringSliceAdditionalSpecFns;
use vstd::std_specs::iter::IteratorSpec;
use vstd::utf8::{
    decode_utf8, encode_scalar, encode_utf8, encode_utf8_decode_utf8, encode_utf8_first_scalar,
    encode_utf8_valid_utf8, is_char_boundary, pop_first_scalar,
};

verus! {

/// How many bytes the UTF-8 encoding of a character takes.
pub open spec fn char_width(c: char) -> int {
    encode_scalar(c as u32).len() as int
}

/// Where the character at position `i` begins among the bytes of the UTF-8
/// encoding of `chars`; for `i` the number of characters, where the bytes end.
pub open spec fn byte_offset(chars: Seq<char>, i: int) -> int {
    encode_utf8(chars.take(i)).len() as int
}

/// `std`'s `char::len_utf8`: the number of bytes that the character takes
/// when encoded in UTF-8.
pub assume_specification[ char::len_utf8 ](c: char) -> (n: usize)
    ensures
        n == char_width(c),
;

/// Whether a character is white space as `std` has it: whether it has the
/// `White_Space` property of the Unicode character database.
pub uninterp spec fn is_white_space(c: char) -> bool;

/// `std`'s `char::is_whitespace`. Its answer depends on the character alone,
/// so the contract gives it a name.
pub assume_specification[ char::is_whitespace ](c: char) -> (b: bool)
    ensures
        b == is_white_space(c),
;

/// A character takes between one and four bytes.
pub proof fn lemma_char_width(c: char)
    ensures
        1 <= char_width(c) <= 4,
{
}

/// The encoding of a concatenation is the concatenation of the encodings.
pub proof fn lemma_encode_concat(a: Seq<char>, b: Seq<char>)
    ensures
        encode_utf8(a + b) =~= encode_utf8(a) + encode_utf8(b),
    decreases a.len(),
{
    if a.len() == 0 {
        assert(a + b =~= b);
    } else {
        assert((a + b).drop_first() =~= a.drop_first() + b);
        lemma_encode_concat(a.drop_first(), b);
    }
}

/// Each character begins where the one before it ends.
pub proof fn lemma_byte_offset_step(chars: Seq<char>, i: int)
    requires
        0 <= i < chars.len(),
    ensures
        byte_offset(chars, i + 1) == byte_offset(chars, i) + char_width(chars[i]),
        byte_offset(chars, 0) == 0,
        byte_offset(chars, i + 1) <= byte_offset(chars, chars.len() as int),
        byte_offset(chars, chars.len() as int) == encode_utf8(chars).len(),
{
    let one = Seq::<char>::empty().push(chars[i]);
    assert(chars.take(i + 1) =~= chars.take(i) + one);
    lemma_encode_concat(chars.take(i), one);
    assert(one.drop_first() =~= Seq::<char>::empty());
    assert(encode_utf8(one) =~= encode_scalar(chars[i] as u32)) by {
        reveal_with_fuel(encode_utf8, 2);
    }
    assert(chars.take(0) =~= Seq::<char>::empty());
    assert(chars.take(chars.len() as int) =~= chars);
    assert(chars =~= chars.take(i + 1) + chars.skip(i + 1));
    lemma_encode_concat(chars.take(i + 1), chars.skip(i + 1));
}

/// The bytes of a string can be cut where a character begins.
pub proof fn lemma_offset_is_boundary(chars: Seq<char>, i: int)
    requires
        0 <= i <= chars.len(),
    ensures
        is_char_boundary(encode_utf8(chars), byte_offset(chars, i)),
        0 <= byte_offset(chars, i) <= encode_utf8(chars).len(),
    decreases i,
{
    let bytes = encode_utf8(chars);
    encode_utf8_valid_utf8(chars);
    assert(chars =~= chars.take(i) + chars.skip(i));
    lemma_encode_concat(chars.take(i), chars.skip(i));
    if i == 0 {
        assert(chars.take(0) =~= Seq::<char>::empty());
    } else {
        let rest = chars.drop_first();
        encode_utf8_first_scalar(chars);
        assert(pop_first_scalar(bytes) =~= encode_utf8(rest));
        lemma_offset_is_boundary(rest, i - 1);
        assert(chars.take(i).drop_first() =~= rest.take(i - 1));
        assert(byte_offset(chars, i) == char_width(chars[0]) + byte_offset(rest, i - 1));
    }
}

/// The bytes between the beginnings of two characters decode to the
/// characters between them.
pub proof fn lemma_decode_between(chars: Seq<char>, i: int, j: int)
    requires
        0 <= i <= j <= chars.len(),
    ensures
        byte_offset(chars, i) <= byte_offset(chars, j) <= encode_utf8(chars).len(),
        encode_utf8(chars).subrange(byte_offset(chars, i), byte_offset(chars, j)) =~= encode_utf8(
            chars.subrange(i, j),
        ),
        decode_utf8(encode_utf8(chars).subrange(byte_offset(chars, i), byte_offset(chars, j)))
            == chars.subrange(i, j),
{
    let a = chars.take(i);
    let b = chars.subrange(i, j);
    let c = chars.skip(j);
    assert(chars.take(j) =~= a + b);
    assert(chars =~= chars.take(j) + c);
    lemma_encode_concat(a, b);
    lemma_encode_concat(chars.take(j), c);
    encode_utf8_decode_utf8(b);
}

/// The test answers for every character.
pub open spec fn is_pattern<P: Fn(char) -> bool>(pattern: P) -> bool {
    forall|c: char| call_requires(pattern, (c,))
}

/// Whatever the test answers of a character is what `pred` says of it.
pub open spec fn follows<P: Fn(char) -> bool>(pattern: P, pred: spec_fn(char) -> bool) -> bool {
    forall|c: char, b: bool| call_ensures(pattern, (c,), b) ==> b == pred(c)
}

/// The character at `i` is the first one of which the predicate holds.
pub open spec fn is_first_where(pred: spec_fn(char) -> bool, chars: Seq<char>, i: int) -> bool {
    &&& 0 <= i < chars.len()
    &&& pred(chars[i])
    &&& forall|j: int| 0 <= j < i ==> !pred(#[trigger] chars[j])
}

/// The position of the first character of which the predicate holds, if there is one.
pub open spec fn first_where(pred: spec_fn(char) -> bool, chars: Seq<char>) -> Option<int> {
    if exists|i: int| is_first_where(pred, chars, i) {
        Some(choose|i: int| is_first_where(pred, chars, i))
    } else {
        None
    }
}

/// What `first_where` finds is the first character of which the predicate
/// holds, and it finds nothing only where the predicate holds of no character.
pub proof fn lemma_first_where(pred: spec_fn(char) -> bool, chars: Seq<char>)
    ensures
        match first_where(pred, chars) {
            Some(i) => is_first_where(pred, chars, i),
            None => forall|j: int| 0 <= j < chars.len() ==> !pred(#[trigger] chars[j]),
        },
{
    if first_where(pred, chars) is None {
        assert forall|j: int| 0 <= j < chars.len() implies !pred(#[trigger] chars[j]) by {
            if pred(chars[j]) {
                lemma_least_where(pred, chars, j);
            }
        }
    }
}

/// Where the predicate holds of some character, it holds of a first one.
proof fn lemma_least_where(pred: spec_fn(char) -> bool, chars: Seq<char>, i: int)
    requires
        0 <= i < chars.len(),
        pred(chars[i]),
    ensures
        exists|k: int| is_first_where(pred, chars, k),
    decreases i,
{
    if exists|j: int| 0 <= j < i && pred(#[trigger] chars[j]) {
        let j = choose|j: int| 0 <= j < i && pred(#[trigger] chars[j]);
        lemma_least_where(pred, chars, j);
    } else {
        assert(is_first_where(pred, chars, i));
    }
}

/// The first character of which the predicate holds is the only one that is.
pub proof fn lemma_first_where_is(pred: spec_fn(char) -> bool, chars: Seq<char>, i: int)
    requires
        is_first_where(pred, chars, i),
    ensures
        first_where(pred, chars) == Some(i),
{
    let c = choose|c: int| is_first_where(pred, chars, c);
    assert(c == i) by {
        if c < i {
            assert(!pred(chars[c]));
        }
        if i < c {
            assert(!pred(chars[i]));
        }
    }
}

/// Finds the first character of `s` that `pattern` says yes to: the byte at
/// which it begins, and how many bytes it takes.
pub(crate) fn find_char<P: Fn(char) -> bool>(s: &str, pattern: &P) -> (r: Option<(usize, usize)>)
    requires
        is_pattern(*pattern),
    ensures
        forall|pred: spec_fn(char) -> bool| #[trigger]
            follows(*pattern, pred) ==> match first_where(pred, s@) {
                Some(i) => r == Some((byte_offset(s@, i) as usize, char_width(s@[i]) as usize)),
                None => r is None,
            },
        r matches Some((at, width)) ==> exists|i: int|
            0 <= i < s@.len() && at == byte_offset(s@, i) && width == char_width(#[trigger] s@[i]),
{
    let total = s.as_bytes().len();
    let mut it = s.chars();
    let mut pos: usize = 0;
    let ghost mut i: int = 0;
    loop
        invariant
            is_pattern(*pattern),
            total == s.spec_bytes().len(),
            0 <= i <= s@.len(),
            IteratorSpec::remaining(&it) == s@.skip(i),
            pos == byte_offset(s@, i),
            forall|j: int| 0 <= j < i ==> call_ensures(*pattern, (#[trigger] s@[j],), false),
        decreases s@.len() - i,
    {
        match it.next() {
            None => {
                proof {
                    assert forall|pred: spec_fn(char) -> bool| #[trigger]
                        follows(*pattern, pred) implies first_where(pred, s@) is None by {
                        assert forall|c: int| !is_first_where(pred, s@, c) by {
                            if 0 <= c < s@.len() {
                                assert(call_ensures(*pattern, (s@[c],), false));
                            }
                        }
                    }
                }
                return None;
            },
            Some(c) => {
                proof {
                    assert(c == s@[i]);
                    lemma_byte_offset_step(s@, i);
                    lemma_char_width(c);
                    assert(s@.skip(i).drop_first() =~= s@.skip(i + 1));
                }
                let width = c.len_utf8();
                if pattern(c) {
                    proof {
                        assert forall|pred: spec_fn(char) -> bool| #[trigger]
                            follows(*pattern, pred) implies first_where(pred, s@) == Some(i) by {
                            assert forall|j: int| 0 <= j < i implies !pred(#[trigger] s@[j]) by {
                                assert(call_ensures(*pattern, (s@[j],), false));
                            }
                            assert(is_first_where(pred, s@, i));
                            lemma_first_where_is(pred, s@, i);
                        }
                    }
                    return Some((pos, width));
                }
                pos += width;
                proof {
                    i = i + 1;
                }
            },
        }
    }
}

/// Whether two strings hold the same characters.
pub(crate) fn str_eq(a: &str, b: &str) -> (r: bool)
    ensures
        r == (a@ == b@),
{
    let x = a.as_bytes();
    let y = b.as_bytes();
    proof {
        encode_utf8_decode_utf8(a@);
        encode_utf8_decode_utf8(b@);
    }
    if x.len() != y.len() {
        return false;
    }
    let mut i: usize = 0;
    while i < x.len()
        invariant
            i <= x@.len(),
            x@.len() == y@.len(),
            x@ == encode_utf8(a@),
            y@ == encode_utf8(b@),
            forall|j: int| 0 <= j < i ==> x@[j] == y@[j],
        decreases x.len() - i,
    {
        if x[i] != y[i] {
            return false;
        }
        i += 1;
    }
    proof {
        assert(x@ =~= y@);
    }
    true
}

/// The lower case letter of an upper case letter of ASCII; any other
/// character itself.
pub open spec fn ascii_lower_char(c: char) -> char {
    if 'A' <= c <= 'Z' {
        ((c as u8) + 32) as char
    } else {
        c
    }
}

/// The characters with the upper case letters of ASCII made lower case.
pub open spec fn ascii_lower(chars: Seq<char>) -> Seq<char> {
    Seq::new(chars.len(), |i: int| ascii_lower_char(chars[i]))
}

/// `std`'s `str::to_ascii_lowercase`: a copy of the string in which the
/// letters `A` to `Z` are mapped to `a` to `z` and every other character
/// is unchanged.
#[verifier::external_body]
pub(crate) fn to_ascii_lowercase(s: &str) -> (r: String)
    ensures
        r@ == ascii_lower(s@),
{
    s.to_ascii_lowercase()
}

/// The digit that stands for a number below ten.
pub open spec fn digit_char(d: nat) -> char {
    if d == 0 {
        '0'
    } else if d == 1 {
        '1'
    } else if d == 2 {
        '2'
    } else if d == 3 {
        '3'
    } else if d == 4 {
        '4'
    } else if d == 5 {
        '5'
    } else if d == 6 {
        '6'
    } else if d == 7 {
        '7'
    } else if d == 8 {
        '8'
    } else {
        '9'
    }
}

/// A number written in decimal digits, without leading zeros.
pub open spec fn decimal(n: nat) -> Seq<char>
    decreases n,
{
    if n < 10 {
        Seq::empty().push(digit_char(n))
    } else {
        decimal(n / 10).push(digit_char(n % 10))
    }
}

/// The character `c`, `n` times.
pub open spec fn repeated(c: char, n: nat) -> Seq<char> {
    Seq::new(n, |i: int| c)
}

/// The characters `s`, with spaces in front of them to make up `width`
/// characters where they are fewer.
pub open spec fn pad_left(s: Seq<char>, width: nat) -> Seq<char> {
    if s.len() >= width {
        s
    } else {
        repeated(' ', (width - s.len()) as nat) + s
    }
}

/// The digit that stands for a number below ten, as a string.
fn digit_str(d: usize) -> (r: &'static str)
    requires
        d < 10,
    ensures
        r@ == Seq::empty().push(digit_char(d as nat)),
{
    proof {
        reveal_strlit("0");
        reveal_strlit("1");
        reveal_strlit("2");
        reveal_strlit("3");
        reveal_strlit("4");
        reveal_strlit("5");
        reveal_strlit("6");
        reveal_strlit("7");
        reveal_strlit("8");
        reveal_strlit("9");
    }
    let r = if d == 0 {
        "0"
    } else if d == 1 {
        "1"
    } else if d == 2 {
        "2"
    } else if d == 3 {
        "3"
    } else if d == 4 {
        "4"
    } else if d == 5 {
        "5"
    } else if d == 6 {
        "6"
    } else if d == 7 {
        "7"
    } else if d == 8 {
        "8"
    } else {
        "9"
    };
    assert(r@ =~= Seq::empty().push(digit_char(d as nat)));
    r
}

/// Writes a number in decimal digits at the end of a string.
pub(crate) fn append_decimal(out: &mut String, n: usize)
    ensures
        final(out)@ == old(out)@ + decimal(n as nat),
    decreases n,
{
    if n >= 10 {
        append_decimal(out, n / 10);
    }
    out.append(digit_str(n % 10));
    proof {
        if n >= 10 {
            assert(final(out)@ =~= old(out)@ + decimal((n / 10) as nat).push(
                digit_char((n % 10) as nat),
            ));
        } else {
            assert(final(out)@ =~= old(out)@ + decimal(n as nat));
        }
    }
}

/// Writes a string of one character `n` times at the end of a string.
pub(crate) fn append_repeated(out: &mut String, piece: &str, n: usize)
    requires
        piece@.len() == 1,
    ensures
        final(out)@ == old(out)@ + repeated(piece@[0], n as nat),
{
    let mut i: usize = 0;
    proof {
        assert(out@ =~= old(out)@ + repeated(piece@[0], 0));
    }
    while i < n
        invariant
            i <= n,
            piece@.len() == 1,
            out@ == old(out)@ + repeated(piece@[0], i as nat),
        decreases n - i,
    {
        out.append(piece);
        proof {
            assert(out@ =~= old(out)@ + repeated(piece@[0], (i + 1) as nat));
        }
        i += 1;
    }
}

} // verus!
