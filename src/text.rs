//! UTF-8 facts shared by the scanners: how many bytes a character takes, how a
//! byte offset relates to a character offset, and safe slicing of `&str`.

use vstd::prelude::*;
use vstd::string::*;
use vstd::utf8::*;
use vstd::std_specs::iter::IteratorSpec;

verus! {

broadcast use vstd::seq::group_seq_axioms;

/// Number of bytes of the UTF-8 encoding of `s`.
pub open spec fn blen(s: Seq<char>) -> nat {
    encode_utf8(s).len()
}

/// Number of bytes of the UTF-8 encoding of one character.
pub open spec fn width(c: char) -> nat {
    encode_scalar(c as u32).len()
}

/// The characters encoded by the bytes `[from, to)` of the encoding of `s`.
pub open spec fn chars_between(s: Seq<char>, from: int, to: int) -> Seq<char> {
    decode_utf8(encode_utf8(s).subrange(from, to))
}

/// `b` is a character boundary of the encoding of `s`.
pub open spec fn boundary(s: Seq<char>, b: int) -> bool {
    is_char_boundary(encode_utf8(s), b)
}

/// An ASCII character takes one byte.
pub proof fn lemma_width_ascii(c: char)
    requires
        (c as u32) < 128,
    ensures
        width(c) == 1,
{
    assert(has_width_1_encoding(c as u32));
    assert(encode_scalar(c as u32) =~= seq![leading_byte_width_1(c as u32)]);
}

/// A newline takes one byte.
pub proof fn lemma_width_newline()
    ensures
        width('\n') == 1,
{
    assert(('\n' as u32) == 10u32);
    assert(has_width_1_encoding(10u32));
    assert(encode_scalar(10u32) =~= seq![leading_byte_width_1(10u32)]);
}

pub proof fn lemma_encode_concat(a: Seq<char>, b: Seq<char>)
    ensures
        encode_utf8(a + b) == encode_utf8(a) + encode_utf8(b),
    decreases a.len(),
{
    if a.len() == 0 {
        assert(a + b =~= b);
        assert(encode_utf8(a) + encode_utf8(b) =~= encode_utf8(b));
    } else {
        assert((a + b).drop_first() =~= a.drop_first() + b);
        lemma_encode_concat(a.drop_first(), b);
        assert((a + b)[0] == a[0]);
        assert(encode_utf8(a + b) =~= encode_utf8(a) + encode_utf8(b));
    }
}

pub proof fn lemma_blen_push(a: Seq<char>, c: char)
    ensures
        blen(a.push(c)) == blen(a) + width(c),
{
    lemma_encode_concat(a, seq![c]);
    assert(a.push(c) =~= a + seq![c]);
    assert(seq![c].drop_first() =~= Seq::<char>::empty());
    assert(encode_utf8(Seq::<char>::empty()) =~= Seq::<u8>::empty());
    assert(encode_utf8(seq![c]) =~= encode_scalar(c as u32));
}

/// The end of every prefix is a character boundary.
pub proof fn lemma_prefix_boundary(a: Seq<char>, b: Seq<char>)
    ensures
        is_char_boundary(encode_utf8(a + b), blen(a) as int),
    decreases a.len(),
{
    broadcast use encode_utf8_valid_utf8;

    lemma_encode_concat(a, b);
    if a.len() == 0 {
    } else {
        let bytes = encode_utf8(a + b);
        encode_utf8_first_scalar(a + b);
        assert((a + b).drop_first() =~= a.drop_first() + b);
        assert((a + b)[0] == a[0]);
        lemma_encode_concat(a.drop_first(), b);
        assert(pop_first_scalar(bytes) =~= encode_utf8(a.drop_first() + b));
        lemma_prefix_boundary(a.drop_first(), b);
        char_is_scalar(a[0]);
        assert(blen(a) as int - length_of_first_scalar(bytes) == blen(a.drop_first()));
    }
}

/// Splitting an encoding at a character boundary splits the characters.
pub proof fn lemma_split_boundary(s: Seq<char>, b: int)
    requires
        is_char_boundary(encode_utf8(s), b),
    ensures
        0 <= b <= blen(s),
        s == chars_between(s, 0, b) + chars_between(s, b, blen(s) as int),
        encode_utf8(chars_between(s, 0, b)) == encode_utf8(s).subrange(0, b),
        encode_utf8(chars_between(s, b, blen(s) as int)) == encode_utf8(s).subrange(
            b,
            blen(s) as int,
        ),
        blen(chars_between(s, 0, b)) == b,
{
    broadcast use encode_utf8_valid_utf8, encode_utf8_decode_utf8;

    let bytes = encode_utf8(s);
    lemma_boundary_range(bytes, b);
    valid_utf8_split(bytes, b);
    decode_utf8_split(bytes, b);
    decode_utf8_encode_utf8(bytes.subrange(0, b));
    decode_utf8_encode_utf8(bytes.subrange(b, bytes.len() as int));
}

proof fn lemma_boundary_range(bytes: Seq<u8>, b: int)
    requires
        valid_utf8(bytes),
        is_char_boundary(bytes, b),
    ensures
        0 <= b <= bytes.len(),
    decreases bytes.len(),
{
    if b != 0 {
        reveal_with_fuel(is_char_boundary, 1);
    }
}

/// Width of one character in UTF-8.
pub fn char_width(c: char) -> (r: usize)
    ensures
        r == width(c),
        1 <= r <= 4,
{
    proof {
        char_is_scalar(c);
    }
    let v = c as u32;
    if v <= 0x7f {
        1
    } else if v <= 0x7ff {
        2
    } else if v <= 0xffff {
        3
    } else {
        4
    }
}

/// Splits `s` at the byte offset `b`, which must be a character boundary.
pub fn split_str(s: &str, b: usize) -> (r: (&str, &str))
    requires
        boundary(s@, b as int),
    ensures
        r.0@ + r.1@ == s@,
        blen(r.0@) == b,
        r.0@ == chars_between(s@, 0, b as int),
        r.1@ == chars_between(s@, b as int, blen(s@) as int),
{
    broadcast use encode_utf8_decode_utf8;

    proof {
        lemma_split_boundary(s@, b as int);
    }
    let r = s.split_at(b);
    proof {
        assert(decode_utf8(encode_utf8(r.0@)) == r.0@);
        assert(decode_utf8(encode_utf8(r.1@)) == r.1@);
    }
    r
}

/// The characters of `s` from character index `k` on, where `b` is the byte
/// offset of that index.
pub fn suffix_from(s: &str, Ghost(k): Ghost<int>, b: usize) -> (r: &str)
    requires
        0 <= k <= s@.len(),
        b == blen(s@.take(k)),
    ensures
        r@ == s@.skip(k),
{
    proof {
        assert(s@.take(k) + s@.skip(k) =~= s@);
        lemma_prefix_boundary(s@.take(k), s@.skip(k));
        lemma_encode_concat(s@.take(k), s@.skip(k));
    }
    let (p, q) = split_str(s, b);
    proof {
        lemma_split_boundary(s@, b as int);
        lemma_encode_concat(p@, q@);
        assert(encode_utf8(s@).subrange(b as int, blen(s@) as int) =~= encode_utf8(s@.skip(k)));
        vstd::utf8::encode_utf8_decode_utf8(s@.skip(k));
    }
    q
}

/// Every character takes at least one byte.
pub proof fn lemma_blen_ge_len(s: Seq<char>)
    ensures
        s.len() <= blen(s),
    decreases s.len(),
{
    if s.len() > 0 {
        lemma_blen_ge_len(s.drop_last());
        assert(s.drop_last().push(s.last()) =~= s);
        lemma_blen_push(s.drop_last(), s.last());
    }
}

/// Byte offsets of prefixes grow with the prefix, strictly.
pub proof fn lemma_blen_take_mono(s: Seq<char>, i: int, j: int)
    requires
        0 <= i <= j <= s.len(),
    ensures
        blen(s.take(i)) + (j - i) <= blen(s.take(j)),
{
    assert(s.take(j) =~= s.take(i) + s.subrange(i, j));
    lemma_encode_concat(s.take(i), s.subrange(i, j));
    lemma_blen_ge_len(s.subrange(i, j));
}

/// The character index whose byte offset is `b`, for a boundary `b`.
pub proof fn lemma_boundary_index(s: Seq<char>, b: int)
    requires
        boundary(s, b),
    ensures
        0 <= chars_between(s, 0, b).len() <= s.len(),
        s.take(chars_between(s, 0, b).len() as int) == chars_between(s, 0, b),
        blen(s.take(chars_between(s, 0, b).len() as int)) == b,
{
    lemma_split_boundary(s, b);
    let p = chars_between(s, 0, b);
    assert(s.take(p.len() as int) =~= p);
}

/// A byte offset of a prefix is a boundary, and the prefix is what lies before it.
pub proof fn lemma_take_boundary(s: Seq<char>, k: int)
    requires
        0 <= k <= s.len(),
    ensures
        boundary(s, blen(s.take(k)) as int),
        chars_between(s, 0, blen(s.take(k)) as int) == s.take(k),
        chars_between(s, blen(s.take(k)) as int, blen(s) as int) == s.skip(k),
{
    assert(s.take(k) + s.skip(k) =~= s);
    lemma_prefix_boundary(s.take(k), s.skip(k));
    lemma_encode_concat(s.take(k), s.skip(k));
    let b = blen(s.take(k)) as int;
    lemma_split_boundary(s, b);
    vstd::utf8::encode_utf8_decode_utf8(s.take(k));
    vstd::utf8::encode_utf8_decode_utf8(s.skip(k));
    assert(encode_utf8(s).subrange(0, b) =~= encode_utf8(s.take(k)));
    assert(encode_utf8(s).subrange(b, blen(s) as int) =~= encode_utf8(s.skip(k)));
}

/// All characters of `s`, in order.
pub fn chars_of(s: &str) -> (r: Vec<char>)
    ensures
        r@ == s@,
{
    let mut it = s.chars();
    let mut out: Vec<char> = Vec::new();
    loop
        invariant
            out@ + it.remaining() == s@,
            it.decrease() is Some,
        ensures
            out@ == s@,
        decreases it.decrease()->0,
    {
        match it.next() {
            Some(c) => {
                out.push(c);
            },
            None => {
                assert(out@ + it.remaining() =~= out@);
                break ;
            },
        }
    }
    out
}

/// Relies on `String::push`: appends one character.
#[verifier::external_body]
pub fn push_char(s: &mut String, c: char)
    ensures
        final(s)@ == old(s)@.push(c),
{
    s.push(c);
}

/// Two strings are equal exactly when they hold the same characters.
pub fn str_eq(a: &str, b: &str) -> (r: bool)
    ensures
        r == (a@ == b@),
{
    let mut ia = a.chars();
    let mut ib = b.chars();
    let ghost mut i: int = 0;
    proof {
        assert(a@.skip(0) =~= a@);
        assert(b@.skip(0) =~= b@);
    }
    loop
        invariant
            0 <= i <= a@.len(),
            i <= b@.len(),
            ia.remaining() == a@.skip(i),
            ib.remaining() == b@.skip(i),
            ia.decrease() is Some,
            a@.take(i) == b@.take(i),
        decreases a@.len() - i,
    {
        let ca = ia.next();
        let cb = ib.next();
        match (ca, cb) {
            (Some(x), Some(y)) => {
                if x != y {
                    proof {
                        if a@ == b@ {
                            assert(a@.skip(i)[0] == a@[i]);
                            assert(b@.skip(i)[0] == b@[i]);
                        }
                    }
                    return false;
                }
                proof {
                    assert(a@.skip(i).drop_first() =~= a@.skip(i + 1));
                    assert(b@.skip(i).drop_first() =~= b@.skip(i + 1));
                    assert(a@.skip(i)[0] == a@[i]);
                    assert(b@.skip(i)[0] == b@[i]);
                    assert(a@.take(i + 1) =~= a@.take(i).push(x));
                    assert(b@.take(i + 1) =~= b@.take(i).push(y));
                    i = i + 1;
                }
            },
            (None, None) => {
                proof {
                    assert(a@.skip(i).len() == a@.len() - i);
                    assert(b@.skip(i).len() == b@.len() - i);
                    assert(a@.take(i) =~= a@);
                    assert(b@.take(i) =~= b@);
                }
                return true;
            },
            _ => {
                proof {
                    assert(a@.skip(i).len() == a@.len() - i);
                    assert(b@.skip(i).len() == b@.len() - i);
                }
                return false;
            },
        }
    }
}

/// A string of `n` copies of `c`.
pub fn repeat_char(c: char, n: usize) -> (r: String)
    ensures
        r@ == Seq::new(n as nat, |_i: int| c),
{
    let mut out = String::new();
    let mut i: usize = 0;
    while i < n
        invariant
            i <= n,
            out@ == Seq::new(i as nat, |_i: int| c),
        decreases n - i,
    {
        push_char(&mut out, c);
        i += 1;
        assert(out@ =~= Seq::new(i as nat, |_i: int| c));
    }
    out
}

/// The decimal digit for `d < 10`.
pub open spec fn digit_char(d: nat) -> char {
    ((d + 48) as u8) as char
}

/// Decimal notation of `n`, without leading zeros.
pub open spec fn decimal(n: nat) -> Seq<char>
    decreases n,
{
    if n < 10 {
        seq![digit_char(n)]
    } else {
        decimal(n / 10).push(digit_char(n % 10))
    }
}

/// Writes `n` in decimal.
pub fn decimal_string(n: usize) -> (r: String)
    ensures
        r@ == decimal(n as nat),
    decreases n,
{
    if n < 10 {
        let mut out = String::new();
        push_char(&mut out, ((n as u8) + 48) as char);
        assert(out@ =~= decimal(n as nat));
        out
    } else {
        let mut out = decimal_string(n / 10);
        push_char(&mut out, (((n % 10) as u8) + 48) as char);
        out
    }
}

/// The bytes between two character offsets encode the characters between them.
pub proof fn lemma_chars_between_takes(s: Seq<char>, a: int, b: int)
    requires
        0 <= a <= b <= s.len(),
    ensures
        chars_between(s, blen(s.take(a)) as int, blen(s.take(b)) as int) == s.subrange(a, b),
        boundary(s, blen(s.take(a)) as int),
        boundary(s, blen(s.take(b)) as int),
        blen(s.take(a)) <= blen(s.take(b)),
{
    let x = s.take(a);
    let y = s.subrange(a, b);
    let z = s.skip(b);
    assert(s =~= x + (y + z));
    assert(s.take(b) =~= x + y);
    lemma_encode_concat(x, y + z);
    lemma_encode_concat(y, z);
    lemma_encode_concat(x, y);
    lemma_take_boundary(s, a);
    lemma_take_boundary(s, b);
    let e = encode_utf8(s);
    assert(e.subrange(blen(x) as int, (blen(x) + blen(y)) as int) =~= encode_utf8(y));
    encode_utf8_decode_utf8(y);
}

/// The first `k` characters of `s`, or all of them when there are fewer.
pub fn prefix_chars(s: &str, k: usize) -> (r: &str)
    requires
        blen(s@) <= usize::MAX,
    ensures
        r@ == (if k < s@.len() {
            s@.take(k as int)
        } else {
            s@
        }),
{
    let ghost t = s@;
    let mut it = s.chars();
    let mut j: usize = 0;
    let mut b: usize = 0;
    proof {
        assert(t.skip(0) =~= t);
        assert(t.take(0) =~= Seq::<char>::empty());
        assert(encode_utf8(Seq::<char>::empty()) =~= Seq::<u8>::empty());
        lemma_blen_ge_len(t);
    }
    while j < k
        invariant
            t == s@,
            it.remaining() == t.skip(j as int),
            it.decrease() is Some,
            j <= t.len(),
            j <= k,
            blen(t) <= usize::MAX,
            b == blen(t.take(j as int)),
        ensures
            j <= t.len(),
            b == blen(t.take(j as int)),
            j == (if k < t.len() { k as int } else { t.len() as int }),
        decreases k - j,
    {
        match it.next() {
            Some(c) => {
                proof {
                    assert(t.skip(j as int).drop_first() =~= t.skip(j + 1));
                    assert(t.take(j as int).push(c) =~= t.take(j + 1));
                    lemma_blen_push(t.take(j as int), c);
                    lemma_blen_take_mono(t, j + 1, t.len() as int);
                    assert(t.take(t.len() as int) =~= t);
                }
                b += char_width(c);
                j += 1;
            },
            None => {
                assert(t.skip(j as int).len() == t.len() - j);
                break ;
            },
        }
    }
    proof {
        lemma_take_boundary(t, j as int);
        if j == t.len() {
            assert(t.take(j as int) =~= t);
        }
    }
    let (p, _) = split_str(s, b);
    p
}

/// The characters between two boundaries take exactly the bytes between them.
pub proof fn lemma_chars_between_blen(s: Seq<char>, a: int, b: int)
    requires
        boundary(s, a),
        boundary(s, b),
        a <= b,
    ensures
        blen(chars_between(s, a, b)) == b - a,
{
    lemma_boundary_index(s, a);
    lemma_boundary_index(s, b);
    let ka = chars_between(s, 0, a).len() as int;
    let kb = chars_between(s, 0, b).len() as int;
    if ka > kb {
        lemma_blen_take_mono(s, kb, ka);
    }
    lemma_chars_between_takes(s, ka, kb);
    assert(s.take(kb) =~= s.take(ka) + s.subrange(ka, kb));
    lemma_encode_concat(s.take(ka), s.subrange(ka, kb));
}

} // verus!
