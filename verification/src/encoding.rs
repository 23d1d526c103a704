//! The base64 text of authentication tokens.

use base64::engine::general_purpose::STANDARD;
use base64::Engine;
use vstd::arithmetic::div_mod::lemma_fundamental_div_mod_converse;
use vstd::prelude::*;

verus! {

/// The byte of `bytes` at `i`, or zero behind its end.
pub open spec fn byte_at(bytes: Seq<u8>, i: int) -> int {
    if 0 <= i < bytes.len() {
        bytes[i] as int
    } else {
        0
    }
}

/// The bits of `bytes` in groups of six: group `i`, as a number.
pub open spec fn sextet(bytes: Seq<u8>, i: int) -> int {
    let first = byte_at(bytes, i / 4 * 3);
    let second = byte_at(bytes, i / 4 * 3 + 1);
    let third = byte_at(bytes, i / 4 * 3 + 2);
    if i % 4 == 0 {
        first / 4
    } else if i % 4 == 1 {
        first % 4 * 16 + second / 16
    } else if i % 4 == 2 {
        second % 16 * 4 + third / 64
    } else {
        third % 64
    }
}

/// The character for a group of six bits.
pub open spec fn base64_char(group: int) -> char {
    if group < 26 {
        ('A' as int + group) as char
    } else if group < 52 {
        ('a' as int + group - 26) as char
    } else if group < 62 {
        ('0' as int + group - 52) as char
    } else if group == 62 {
        '+'
    } else {
        '/'
    }
}

/// The standard base64 text of `bytes`, filled up with `=` to a multiple of four characters.
pub open spec fn base64(bytes: Seq<u8>) -> Seq<char> {
    Seq::new(
        ((bytes.len() + 2) / 3 * 4) as nat,
        |i: int|
            if i * 6 < bytes.len() * 8 {
                base64_char(sextet(bytes, i))
            } else {
                '='
            },
    )
}

/// The bytes whose base64 text is `text`, if there are any.
pub open spec fn base64_decoded(text: Seq<char>) -> Option<Seq<u8>> {
    if exists|bytes: Seq<u8>| #[trigger] base64(bytes) == text {
        Some(choose|bytes: Seq<u8>| #[trigger] base64(bytes) == text)
    } else {
        None
    }
}

/// Calls `base64::Engine::encode` on the engine `STANDARD`: the result is the standard base64 text
/// of the bytes, with padding. A text too long for a `String` is left out.
#[verifier::external_body]
pub(crate) fn encode(bytes: &[u8]) -> (text: String)
    requires
        (bytes@.len() + 2) / 3 * 4 <= isize::MAX,
    ensures
        text@ == base64(bytes@),
{
    STANDARD.encode(bytes)
}

/// Calls `base64::Engine::decode` on the engine `STANDARD`: there is a result exactly if the text
/// is the base64 text of some bytes, with canonical padding and no stray bits, and then it is
/// these bytes.
#[verifier::external_body]
fn decode(text: &str) -> (bytes: Option<Vec<u8>>)
    ensures
        bytes matches Some(b) ==> base64(b@) == text@,
        bytes is None ==> forall|b: Seq<u8>| #[trigger] base64(b) != text@,
{
    STANDARD.decode(text).ok()
}

/// Three bytes are determined by the four groups of six bits that they make up.
proof fn lemma_groups(a: int, b: int, c: int, d: int, e: int, f: int)
    requires
        0 <= a < 256,
        0 <= b < 256,
        0 <= c < 256,
        0 <= d < 256,
        0 <= e < 256,
        0 <= f < 256,
        a / 4 == d / 4,
        a % 4 * 16 + b / 16 == d % 4 * 16 + e / 16,
    ensures
        a == d,
        b / 16 == e / 16,
        b % 16 * 4 + c / 64 == e % 16 * 4 + f / 64 ==> b == e && c / 64 == f / 64,
        b % 16 * 4 + c / 64 == e % 16 * 4 + f / 64 && c % 64 == f % 64 ==> c == f,
{
}

/// Different groups have different characters, and none is `=`.
proof fn lemma_char(i: int, j: int)
    requires
        0 <= i < 64,
        0 <= j < 64,
    ensures
        base64_char(i) == base64_char(j) ==> i == j,
        base64_char(i) != '=',
{
}

/// A group of six bits is a number below 64.
proof fn lemma_sextet(bytes: Seq<u8>, i: int)
    ensures
        0 <= sextet(bytes, i) < 64,
{
}

/// Different bytes have different base64 texts.
pub proof fn law_base64_is_injective(a: Seq<u8>, b: Seq<u8>)
    requires
        base64(a) == base64(b),
    ensures
        a == b,
{
    let text = base64(a);
    assert(text.len() == base64(b).len());
    assert(a.len() == b.len()) by {
        let n = text.len() as int;
        if n > 0 {
            lemma_sextet(a, n - 1);
            lemma_sextet(a, n - 2);
            lemma_sextet(b, n - 1);
            lemma_sextet(b, n - 2);
            lemma_char(sextet(a, n - 1), 0);
            lemma_char(sextet(a, n - 2), 0);
            lemma_char(sextet(b, n - 1), 0);
            lemma_char(sextet(b, n - 2), 0);
            assert(base64(a)[n - 1] == base64(b)[n - 1]);
            assert(base64(a)[n - 2] == base64(b)[n - 2]);
        }
    }
    assert forall|i: int| 0 <= i < a.len() implies a[i] == b[i] by {
        lemma_same_byte(a, b, i);
    }
}

/// Bytes of the same length and the same text agree everywhere.
proof fn lemma_same_byte(a: Seq<u8>, b: Seq<u8>, i: int)
    requires
        base64(a) == base64(b),
        a.len() == b.len(),
        0 <= i < a.len(),
    ensures
        a[i] == b[i],
{
    let group = i / 3;
    assert forall|j: int| 4 * group <= j < 4 * group + 4 && j * 6 < a.len() * 8 implies sextet(a, j)
        == sextet(b, j) by {
        lemma_sextet(a, j);
        lemma_sextet(b, j);
        lemma_char(sextet(a, j), sextet(b, j));
        let groups = (a.len() + 2) / 3;
        assert(3 * groups >= a.len());
        assert(j < groups * 4);
        assert(0 <= j);
        assert(base64(a)[j] == base64_char(sextet(a, j)));
        assert(base64(b)[j] == base64_char(sextet(b, j)));
    }
    let j = 4 * group;
    assert(j / 4 == group && (j + 1) / 4 == group && (j + 2) / 4 == group && (j + 3) / 4 == group);
    assert(sextet(a, j) == sextet(b, j));
    assert(sextet(a, j + 1) == sextet(b, j + 1));
    if i % 3 >= 1 {
        assert(sextet(a, j + 2) == sextet(b, j + 2));
    }
    if i % 3 == 2 {
        assert(sextet(a, j + 3) == sextet(b, j + 3));
    }
    lemma_groups(
        byte_at(a, 3 * group),
        byte_at(a, 3 * group + 1),
        byte_at(a, 3 * group + 2),
        byte_at(b, 3 * group),
        byte_at(b, 3 * group + 1),
        byte_at(b, 3 * group + 2),
    );
}

/// Decoding an encoded token gives the token back.
pub proof fn law_base64_round_trip(bytes: Seq<u8>)
    ensures
        base64_decoded(base64(bytes)) == Some(bytes),
{
    let found = choose|b: Seq<u8>| #[trigger] base64(b) == base64(bytes);
    law_base64_is_injective(found, bytes);
}

/// The bytes with the base64 text `text`.
pub fn decode_token(text: &str) -> (bytes: Option<Vec<u8>>)
    ensures
        match bytes {
            Some(b) => base64_decoded(text@) == Some(b@),
            None => base64_decoded(text@) is None,
        },
{
    let bytes = decode(text);
    proof {
        if bytes is Some {
            law_base64_round_trip(bytes->0@);
        }
    }
    bytes
}

/// The characters for the groups of six bits, in order.
pub open spec fn alphabet() -> Seq<char> {
    "ABCDEFGHIJKLMNOPQRSTUVWXYZabcdefghijklmnopqrstuvwxyz0123456789+/"@
}

/// The characters are those of the alphabet.
proof fn lemma_alphabet(i: int)
    requires
        0 <= i < 64,
    ensures
        alphabet().len() == 64,
        base64_char(i) == alphabet()[i],
{
    reveal_strlit("ABCDEFGHIJKLMNOPQRSTUVWXYZabcdefghijklmnopqrstuvwxyz0123456789+/");
}

/// The text of three bytes are the four characters for the number that the bytes make up in base
/// 256, written in base 64. One or two bytes are filled up with zeros, and each character that holds
/// nothing but these is `=`. Bytes in groups of three are written group by group.
pub proof fn law_base64_is_base_64(x: u8, y: u8, z: u8, front: Seq<u8>, back: Seq<u8>)
    ensures
        ({
            let three = x as int * 65536 + y as int * 256 + z as int;
            let two = x as int * 65536 + y as int * 256;
            let one = x as int * 65536;
            &&& base64(seq![x, y, z]) == seq![
                alphabet()[three / 262144],
                alphabet()[three / 4096 % 64],
                alphabet()[three / 64 % 64],
                alphabet()[three % 64],
            ]
            &&& base64(seq![x, y]) == seq![
                alphabet()[two / 262144],
                alphabet()[two / 4096 % 64],
                alphabet()[two / 64 % 64],
                '=',
            ]
            &&& base64(seq![x]) == seq![
                alphabet()[one / 262144],
                alphabet()[one / 4096 % 64],
                '=',
                '=',
            ]
        }),
        base64(Seq::empty()) == Seq::<char>::empty(),
        front.len() % 3 == 0 ==> base64(front + back) == base64(front) + base64(back),
{
    lemma_group_text(seq![x, y, z], x as int, y as int, z as int);
    lemma_group_text(seq![x, y], x as int, y as int, 0);
    lemma_group_text(seq![x], x as int, 0, 0);
    let three = x as int * 65536 + y as int * 256 + z as int;
    let two = x as int * 65536 + y as int * 256;
    let one = x as int * 65536;
    assert(base64(seq![x, y, z]) == seq![
        alphabet()[three / 262144],
        alphabet()[three / 4096 % 64],
        alphabet()[three / 64 % 64],
        alphabet()[three % 64],
    ]);
    assert(base64(seq![x, y]) == seq![
        alphabet()[two / 262144],
        alphabet()[two / 4096 % 64],
        alphabet()[two / 64 % 64],
        '=',
    ]);
    assert(base64(seq![x]) == seq![
        alphabet()[one / 262144],
        alphabet()[one / 4096 % 64],
        '=',
        '=',
    ]);
    if front.len() % 3 == 0 {
        lemma_base64_concat(front, back);
    }
}

/// The places of a number of three bytes in base 64.
proof fn lemma_places(x: int, y: int, z: int)
    requires
        0 <= x < 256,
        0 <= y < 256,
        0 <= z < 256,
    ensures
        ({
            let n = x * 65536 + y * 256 + z;
            &&& n / 262144 == x / 4
            &&& n / 4096 % 64 == x % 4 * 16 + y / 16
            &&& n / 64 % 64 == y % 16 * 4 + z / 64
            &&& n % 64 == z % 64
        }),
{
    let n = x * 65536 + y * 256 + z;
    let (a, b) = (x / 4, x % 4);
    let (c, d) = (y / 16, y % 16);
    let (e, f) = (z / 64, z % 64);
    lemma_fundamental_div_mod_converse(n, 262144, a, b * 65536 + y * 256 + z);
    lemma_fundamental_div_mod_converse(n, 4096, x * 16 + c, d * 256 + z);
    lemma_fundamental_div_mod_converse(x * 16 + c, 64, a, b * 16 + c);
    lemma_fundamental_div_mod_converse(n, 64, x * 1024 + y * 4 + e, f);
    lemma_fundamental_div_mod_converse(x * 1024 + y * 4 + e, 64, x * 16 + c, d * 4 + e);
}

/// The characters of one group, filled up with zeros.
proof fn lemma_group_text(b: Seq<u8>, x: int, y: int, z: int)
    requires
        1 <= b.len() <= 3,
        x == byte_at(b, 0),
        y == byte_at(b, 1),
        z == byte_at(b, 2),
    ensures
        base64(b).len() == 4,
        ({
            let n = x * 65536 + y * 256 + z;
            &&& base64(b)[0] == alphabet()[n / 262144]
            &&& base64(b)[1] == alphabet()[n / 4096 % 64]
            &&& base64(b)[2] == if b.len() >= 2 {
                alphabet()[n / 64 % 64]
            } else {
                '='
            }
            &&& base64(b)[3] == if b.len() == 3 {
                alphabet()[n % 64]
            } else {
                '='
            }
        }),
{
    lemma_places(x, y, z);
    lemma_sextet(b, 0);
    lemma_sextet(b, 1);
    lemma_sextet(b, 2);
    lemma_sextet(b, 3);
    lemma_alphabet(sextet(b, 0));
    lemma_alphabet(sextet(b, 1));
    lemma_alphabet(sextet(b, 2));
    lemma_alphabet(sextet(b, 3));
    assert(sextet(b, 0) == x / 4);
    assert(sextet(b, 1) == x % 4 * 16 + y / 16);
    assert(sextet(b, 2) == y % 16 * 4 + z / 64);
    assert(sextet(b, 3) == z % 64);
}

/// Groups of three bytes are written one after the other.
proof fn lemma_base64_concat(front: Seq<u8>, back: Seq<u8>)
    requires
        front.len() % 3 == 0,
    ensures
        base64(front + back) == base64(front) + base64(back),
{
    let all = front + back;
    let n = front.len() / 3;
    let whole = base64(all);
    let parts = base64(front) + base64(back);
    assert(front.len() == 3 * n);
    assert(base64(front).len() == 4 * n);
    assert(whole.len() == parts.len());
    assert forall|i: int| 0 <= i < whole.len() implies whole[i] == parts[i] by {
        if i < 4 * n {
            assert(i / 4 * 3 + 2 < front.len());
            assert(byte_at(all, i / 4 * 3) == byte_at(front, i / 4 * 3));
            assert(byte_at(all, i / 4 * 3 + 1) == byte_at(front, i / 4 * 3 + 1));
            assert(byte_at(all, i / 4 * 3 + 2) == byte_at(front, i / 4 * 3 + 2));
            assert(sextet(all, i) == sextet(front, i));
            assert(parts[i] == base64(front)[i]);
        } else {
            let j = i - 4 * n;
            assert(i / 4 == j / 4 + n && i % 4 == j % 4);
            let m = j / 4 * 3;
            assert(i / 4 * 3 == m + 3 * n);
            assert(byte_at(all, m + 3 * n) == byte_at(back, m));
            assert(byte_at(all, m + 3 * n + 1) == byte_at(back, m + 1));
            assert(byte_at(all, m + 3 * n + 2) == byte_at(back, m + 2));
            assert(sextet(all, i) == sextet(back, j));
            assert(parts[i] == base64(back)[j]);
            assert(i * 6 < all.len() * 8 <==> j * 6 < back.len() * 8);
        }
    }
    assert(whole == parts);
}

/// A text is decoded to the bytes of which it is the base64 text, and is refused exactly if there
/// are none.
pub proof fn law_decoding_undoes_encoding(
    text: &str,
    decoded: Option<Vec<u8>>,
    bytes: Seq<u8>,
)
    requires
        call_ensures(decode_token, (text,), decoded),
    ensures
        base64(bytes) == text@ ==> (decoded matches Some(d) && d@ == bytes),
        decoded matches Some(d) ==> base64(d@) == text@,
        match decoded {
            Some(d) => base64_decoded(text@) == Some(d@),
            None => base64_decoded(text@) is None,
        },
{
    if base64(bytes) == text@ {
        law_base64_round_trip(bytes);
    }
}

} // verus!
