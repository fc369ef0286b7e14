//! Byte-level string tools: equality, the lexicographic order, suffixes, file
//! names and decimal numerals.
//!
//! Paths and identifiers are `String`s; they are compared and matched by the
//! bytes of their UTF-8 encoding, which is also how `str` orders itself.

use vstd::prelude::*;
use vstd::slice::slice_subrange;
use vstd::string::*;
use vstd::utf8::*;

verus! {

/// The byte that separates the components of a path.
pub open spec fn separator() -> u8 {
    0x2f
}

/// The byte that introduces a file extension.
pub open spec fn dot() -> u8 {
    0x2e
}

/// `a` comes before `b`, or equals it, in the lexicographic order of bytes: the
/// first byte in which they differ decides, and a proper prefix comes first.
pub open spec fn lex_le(a: Seq<u8>, b: Seq<u8>) -> bool
    decreases a.len(),
{
    if a.len() == 0 {
        true
    } else if b.len() == 0 {
        false
    } else if a[0] != b[0] {
        a[0] < b[0]
    } else {
        lex_le(a.drop_first(), b.drop_first())
    }
}

/// Two sequences that agree on their first `n` bytes compare as what follows
/// those bytes does.
pub proof fn lemma_lex_le_skip(a: Seq<u8>, b: Seq<u8>, n: int)
    requires
        0 <= n <= a.len(),
        n <= b.len(),
        a.subrange(0, n) == b.subrange(0, n),
    ensures
        lex_le(a, b) == lex_le(a.skip(n), b.skip(n)),
    decreases n,
{
    if n == 0 {
        assert(a.skip(0) =~= a);
        assert(b.skip(0) =~= b);
    } else {
        assert(a[0] == a.subrange(0, n)[0]);
        assert(b[0] == b.subrange(0, n)[0]);
        assert(a.drop_first().subrange(0, n - 1) =~= a.subrange(0, n).drop_first());
        assert(b.drop_first().subrange(0, n - 1) =~= b.subrange(0, n).drop_first());
        lemma_lex_le_skip(a.drop_first(), b.drop_first(), n - 1);
        assert(a.drop_first().skip(n - 1) =~= a.skip(n));
        assert(b.drop_first().skip(n - 1) =~= b.skip(n));
    }
}

/// Every sequence is below itself.
pub proof fn lemma_lex_le_reflexive(a: Seq<u8>)
    ensures
        lex_le(a, a),
    decreases a.len(),
{
    if a.len() > 0 {
        lemma_lex_le_reflexive(a.drop_first());
    }
}

/// Of two sequences one is below the other.
pub proof fn lemma_lex_le_total(a: Seq<u8>, b: Seq<u8>)
    ensures
        lex_le(a, b) || lex_le(b, a),
    decreases a.len(),
{
    if a.len() > 0 && b.len() > 0 && a[0] == b[0] {
        lemma_lex_le_total(a.drop_first(), b.drop_first());
    }
}

/// The order is transitive.
pub proof fn lemma_lex_le_transitive(a: Seq<u8>, b: Seq<u8>, c: Seq<u8>)
    requires
        lex_le(a, b),
        lex_le(b, c),
    ensures
        lex_le(a, c),
    decreases a.len(),
{
    if a.len() > 0 && b.len() > 0 && c.len() > 0 && a[0] == b[0] && b[0] == c[0] {
        lemma_lex_le_transitive(a.drop_first(), b.drop_first(), c.drop_first());
    }
}

/// Two sequences that are below each other are equal.
pub proof fn lemma_lex_le_antisymmetric(a: Seq<u8>, b: Seq<u8>)
    requires
        lex_le(a, b),
        lex_le(b, a),
    ensures
        a == b,
    decreases a.len(),
{
    if a.len() > 0 && b.len() > 0 {
        lemma_lex_le_antisymmetric(a.drop_first(), b.drop_first());
        assert(a =~= seq![a[0]] + a.drop_first());
        assert(b =~= seq![b[0]] + b.drop_first());
    } else {
        assert(a =~= b);
    }
}

/// Whether `a` is below or equal to `b` in the lexicographic order of bytes.
pub fn bytes_le(a: &[u8], b: &[u8]) -> (r: bool)
    ensures
        r == lex_le(a@, b@),
{
    let mut i: usize = 0;
    while i < a.len() && i < b.len()
        invariant
            i <= a.len(),
            i <= b.len(),
            a@.subrange(0, i as int) == b@.subrange(0, i as int),
        decreases a.len() - i,
    {
        if a[i] != b[i] {
            proof {
                lemma_lex_le_skip(a@, b@, i as int);
            }
            return a[i] < b[i];
        }
        proof {
            assert(a@.subrange(0, i + 1) =~= a@.subrange(0, i as int).push(a@[i as int]));
            assert(b@.subrange(0, i + 1) =~= b@.subrange(0, i as int).push(b@[i as int]));
        }
        i += 1;
    }
    proof {
        lemma_lex_le_skip(a@, b@, i as int);
    }
    a.len() <= b.len()
}

/// Whether two byte strings are equal.
pub fn bytes_eq(a: &[u8], b: &[u8]) -> (r: bool)
    ensures
        r == (a@ == b@),
{
    if a.len() != b.len() {
        return false;
    }
    let mut i: usize = 0;
    while i < a.len()
        invariant
            i <= a.len(),
            a.len() == b.len(),
            a@.subrange(0, i as int) == b@.subrange(0, i as int),
        decreases a.len() - i,
    {
        if a[i] != b[i] {
            return false;
        }
        proof {
            assert(a@.subrange(0, i + 1) =~= a@.subrange(0, i as int).push(a@[i as int]));
            assert(b@.subrange(0, i + 1) =~= b@.subrange(0, i as int).push(b@[i as int]));
        }
        i += 1;
    }
    proof {
        assert(a@ =~= a@.subrange(0, i as int));
        assert(b@ =~= b@.subrange(0, i as int));
    }
    true
}

/// Strings with the same encoding are the same string.
pub proof fn lemma_encoding_injective(a: Seq<char>, b: Seq<char>)
    requires
        encode_utf8(a) == encode_utf8(b),
    ensures
        a == b,
{
    encode_utf8_decode_utf8(a);
    encode_utf8_decode_utf8(b);
}

/// Whether two strings are equal.
pub fn str_eq(a: &str, b: &str) -> (r: bool)
    ensures
        r == (a@ == b@),
{
    let same = bytes_eq(a.as_bytes(), b.as_bytes());
    proof {
        if same {
            lemma_encoding_injective(a@, b@);
        }
    }
    same
}

/// Whether path `a` sorts before path `b`, or with it.
pub open spec fn path_le(a: Seq<char>, b: Seq<char>) -> bool {
    lex_le(encode_utf8(a), encode_utf8(b))
}

/// Whether `a` sorts before `b`, or with it, by the bytes of their encodings.
pub fn str_le(a: &str, b: &str) -> (r: bool)
    ensures
        r == path_le(a@, b@),
{
    bytes_le(a.as_bytes(), b.as_bytes())
}

/// Where the last component of `path` starts: after its last separator, or at
/// 0 where it has none.
pub open spec fn file_name_start(path: Seq<u8>) -> int
    decreases path.len(),
{
    if path.len() == 0 {
        0
    } else if path.last() == separator() {
        path.len() as int
    } else {
        file_name_start(path.drop_last())
    }
}

/// The last component of `path`: what follows its last separator.
pub open spec fn file_name(path: Seq<u8>) -> Seq<u8> {
    path.skip(file_name_start(path))
}

/// The start of the file name lies in the path, no separator follows it, and a
/// separator stands just before it unless it is 0.
pub proof fn lemma_file_name_start(path: Seq<u8>)
    ensures
        0 <= file_name_start(path) <= path.len(),
        forall|k: int| file_name_start(path) <= k < path.len() ==> path[k] != separator(),
        file_name_start(path) > 0 ==> path[file_name_start(path) - 1] == separator(),
    decreases path.len(),
{
    if path.len() > 0 && path.last() != separator() {
        let front = path.drop_last();
        lemma_file_name_start(front);
        assert forall|k: int| file_name_start(path) <= k < path.len() implies path[k]
            != separator() by {
            if k < front.len() {
                assert(front[k] == path[k]);
            }
        }
        if file_name_start(path) > 0 {
            assert(front[file_name_start(path) - 1] == path[file_name_start(path) - 1]);
        }
    }
}

/// The index at which the file name of `path` starts.
pub fn find_file_name(path: &[u8]) -> (start: usize)
    ensures
        start == file_name_start(path@),
        start <= path@.len(),
{
    let mut i: usize = path.len();
    proof {
        assert(path@.subrange(0, i as int) =~= path@);
    }
    while i > 0
        invariant
            i <= path.len(),
            file_name_start(path@) == file_name_start(path@.subrange(0, i as int)),
        decreases i,
    {
        if path[i - 1] == 0x2f {
            proof {
                lemma_file_name_start(path@);
            }
            return i;
        }
        proof {
            assert(path@.subrange(0, i as int).drop_last() =~= path@.subrange(0, i - 1));
        }
        i -= 1;
    }
    proof {
        lemma_file_name_start(path@);
    }
    i
}

/// `name` ends with `suffix`.
pub open spec fn ends_with(name: Seq<u8>, suffix: Seq<u8>) -> bool {
    suffix.len() <= name.len() && name.skip(name.len() - suffix.len()) == suffix
}

/// `name` ends with a dot followed by `extension`.
pub open spec fn has_extension(name: Seq<u8>, extension: Seq<u8>) -> bool {
    ends_with(name, seq![dot()] + extension)
}

/// Whether `name` ends with a dot and `extension`.
pub fn ends_with_extension(name: &[u8], extension: &[u8]) -> (r: bool)
    ensures
        r == has_extension(name@, extension@),
{
    let ghost suffix = seq![dot()] + extension@;
    if extension.len() >= name.len() {
        return false;
    }
    let at: usize = name.len() - extension.len();
    if name[at - 1] != 0x2e {
        proof {
            assert(name@.skip(name@.len() - suffix.len())[0] == name@[at - 1]);
        }
        return false;
    }
    let same = bytes_eq(slice_subrange(name, at, name.len()), extension);
    proof {
        let got = name@.skip(name@.len() - suffix.len());
        assert(got.drop_first() =~= name@.subrange(at as int, name@.len() as int));
        assert(suffix.drop_first() =~= extension@);
        assert(got[0] == suffix[0]);
        if same {
            assert(got =~= suffix);
        }
    }
    same
}

/// A character boundary of `bytes` that lies at or before another one is a
/// character boundary of what comes before that other one, too.
pub proof fn lemma_boundary_in_prefix(bytes: Seq<u8>, start: int, end: int)
    requires
        valid_utf8(bytes),
        0 <= start <= end,
        is_char_boundary(bytes, start),
        is_char_boundary(bytes, end),
    ensures
        end <= bytes.len(),
        valid_utf8(bytes.subrange(0, end)),
        is_char_boundary(bytes.subrange(0, end), start),
{
    let head = bytes.subrange(0, end);
    valid_utf8_split(bytes, end);
    if start == end {
        is_char_boundary_start_end_of_seq(head);
    } else {
        is_char_boundary_iff_not_is_continuation_byte(bytes, start);
        is_char_boundary_iff_not_is_continuation_byte(head, start);
        assert(head[start] == bytes[start]);
    }
}

/// The text that the bytes from `start` up to `end` of the encoding of `source`
/// spell.
pub open spec fn slice_text(source: Seq<char>, start: int, end: int) -> Seq<char> {
    decode_utf8(encode_utf8(source).subrange(start, end))
}

/// Both `start` and `end` are character boundaries of the encoding of `source`,
/// in this order.
pub open spec fn slice_fits(source: Seq<char>, start: int, end: int) -> bool {
    start <= end && is_char_boundary(encode_utf8(source), start) && is_char_boundary(
        encode_utf8(source),
        end,
    )
}

/// The part of `source` between the byte offsets `start` and `end`, where both
/// are character boundaries of it, in this order.
pub fn slice_str<'a>(source: &'a str, start: usize, end: usize) -> (part: Option<&'a str>)
    ensures
        part is Some <==> slice_fits(source@, start as int, end as int),
        part matches Some(text) ==> text@ == slice_text(source@, start as int, end as int),
{
    broadcast use encode_utf8_valid_utf8;

    if start > end || !source.is_char_boundary(end) || !source.is_char_boundary(start) {
        return None;
    }
    let ghost bytes = encode_utf8(source@);
    proof {
        lemma_boundary_in_prefix(bytes, start as int, end as int);
    }
    let (head, _) = source.split_at(end);
    let (_, text) = head.split_at(start);
    proof {
        assert(encode_utf8(text@) =~= bytes.subrange(start as int, end as int));
        encode_utf8_decode_utf8(text@);
    }
    Some(text)
}

/// `String::from_utf8`: the string that `bytes` encode, where they are valid
/// UTF-8, and `None` where they are not.
#[verifier::external_body]
pub(crate) fn string_from_utf8(bytes: Vec<u8>) -> (text: Option<String>)
    ensures
        text is Some <==> valid_utf8(bytes@),
        text matches Some(s) ==> s@ == decode_utf8(bytes@),
{
    String::from_utf8(bytes).ok()
}

/// The character that writes the digit `d`.
pub open spec fn digit_char(d: nat) -> char {
    if d == 0 {
        '0'
    } else if d == 1 {
        '1'
    } else if d == 2 {
        '2'
    } else if d == 3 {
        '3'
    } else if d == 4 {
        '4'
    } else if d == 5 {
        '5'
    } else if d == 6 {
        '6'
    } else if d == 7 {
        '7'
    } else if d == 8 {
        '8'
    } else {
        '9'
    }
}

/// The decimal numeral of `n`, without leading zeros.
pub open spec fn decimal(n: nat) -> Seq<char>
    decreases n,
{
    if n < 10 {
        seq![digit_char(n)]
    } else {
        decimal(n / 10).push(digit_char(n % 10))
    }
}

/// The one-character string that writes the digit `d`.
fn digit_str(d: u8) -> (s: &'static str)
    requires
        d < 10,
    ensures
        s@ == seq![digit_char(d as nat)],
{
    proof {
        reveal_strlit("0");
        reveal_strlit("1");
        reveal_strlit("2");
        reveal_strlit("3");
        reveal_strlit("4");
        reveal_strlit("5");
        reveal_strlit("6");
        reveal_strlit("7");
        reveal_strlit("8");
        reveal_strlit("9");
    }
    let s = if d == 0 {
        "0"
    } else if d == 1 {
        "1"
    } else if d == 2 {
        "2"
    } else if d == 3 {
        "3"
    } else if d == 4 {
        "4"
    } else if d == 5 {
        "5"
    } else if d == 6 {
        "6"
    } else if d == 7 {
        "7"
    } else if d == 8 {
        "8"
    } else {
        "9"
    };
    assert(s@ =~= seq![digit_char(d as nat)]);
    s
}

/// Appends the decimal numeral of `n` to `out`.
pub fn push_decimal(out: &mut String, n: u128)
    ensures
        final(out)@ == old(out)@ + decimal(n as nat),
    decreases n,
{
    if n >= 10 {
        push_decimal(out, n / 10);
    }
    let d: u8 = (n % 10) as u8;
    out.append(digit_str(d));
    assert(final(out)@ =~= old(out)@ + decimal(n as nat));
}

} // verus!
