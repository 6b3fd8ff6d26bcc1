//! Text renderings of byte strings and paths.

use crate::keys::Path;
use vstd::prelude::*;
use vstd::string::*;
use vstd::utf8::is_ascii_chars;

verus! {

/// Up to this many bytes are listed in full as integers.
pub const MAX_BYTES: usize = 10;

/// Hex renderings up to this many digits are shown in full.
pub const MAX_HEX_LENGTH: usize = 20;

/// Digits kept at each end of a shortened hex rendering.
pub const HEX_PARTS_LENGTH: usize = 8;

/// How a byte string is shown.
#[derive(Debug, Clone, Copy, PartialEq, Eq, Structural)]
pub enum DisplayVariant {
    U8,
    String,
    Hex,
}

impl Default for DisplayVariant {
    fn default() -> (r: DisplayVariant)
        ensures
            r == DisplayVariant::String,
    {
        DisplayVariant::String
    }
}

/// Decimal digit `d`.
pub open spec fn digit_char(d: int) -> char {
    if d == 0 {
        '0'
    } else if d == 1 {
        '1'
    } else if d == 2 {
        '2'
    } else if d == 3 {
        '3'
    } else if d == 4 {
        '4'
    } else if d == 5 {
        '5'
    } else if d == 6 {
        '6'
    } else if d == 7 {
        '7'
    } else if d == 8 {
        '8'
    } else {
        '9'
    }
}

/// Lower-case hex digit `d`.
pub open spec fn hex_digit(d: int) -> char {
    if d < 10 {
        digit_char(d)
    } else if d == 10 {
        'a'
    } else if d == 11 {
        'b'
    } else if d == 12 {
        'c'
    } else if d == 13 {
        'd'
    } else if d == 14 {
        'e'
    } else {
        'f'
    }
}

/// Decimal rendering of a byte, without leading zeros.
pub open spec fn dec_of(b: u8) -> Seq<char> {
    if b >= 100 {
        seq![digit_char(b as int / 100), digit_char((b as int / 10) % 10), digit_char(b as int % 10)]
    } else if b >= 10 {
        seq![digit_char(b as int / 10), digit_char(b as int % 10)]
    } else {
        seq![digit_char(b as int)]
    }
}

/// Two lower-case hex digits per byte, high half first.
pub open spec fn hex_of(b: Seq<u8>) -> Seq<char>
    decreases b.len(),
{
    if b.len() == 0 {
        Seq::empty()
    } else {
        hex_of(b.drop_last()) + seq![hex_digit(b.last() as int / 16), hex_digit(b.last() as int % 16)]
    }
}

/// The bytes in decimal, separated by `", "`.
pub open spec fn dec_list(b: Seq<u8>) -> Seq<char>
    decreases b.len(),
{
    if b.len() == 0 {
        Seq::empty()
    } else if b.len() == 1 {
        dec_of(b[0])
    } else {
        dec_list(b.drop_last()) + seq![',', ' '] + dec_of(b.last())
    }
}

/// The bytes in decimal, each followed by `','`.
pub open spec fn dec_each(b: Seq<u8>) -> Seq<char>
    decreases b.len(),
{
    if b.len() == 0 {
        Seq::empty()
    } else {
        dec_each(b.drop_last()) + dec_of(b.last()) + seq![',']
    }
}

/// Integer rendering: `[1, 2, 3]` for up to `MAX_BYTES` bytes, otherwise
/// every byte followed by a comma and then `...`.
pub open spec fn slice_text(b: Seq<u8>) -> Seq<char> {
    if b.len() <= MAX_BYTES {
        seq!['['] + dec_list(b) + seq![']']
    } else {
        seq!['['] + dec_each(b) + seq!['.', '.', '.']
    }
}

/// Hex rendering, shortened to its ends around `..` when long.
pub open spec fn hex_text(b: Seq<u8>) -> Seq<char> {
    let h = hex_of(b);
    if h.len() <= MAX_HEX_LENGTH {
        h
    } else {
        h.subrange(0, HEX_PARTS_LENGTH as int) + seq!['.', '.'] + h.subrange(
            h.len() - HEX_PARTS_LENGTH,
            h.len() as int,
        )
    }
}

/// Text of a byte string decoded as UTF-8, invalid sequences replaced.
pub uninterp spec fn utf8_lossy_of(b: Seq<u8>) -> Seq<char>;

/// Rendering of `b` in the given variant.
pub open spec fn display_text(b: Seq<u8>, v: DisplayVariant) -> Seq<char> {
    match v {
        DisplayVariant::U8 => slice_text(b),
        DisplayVariant::String => utf8_lossy_of(b),
        DisplayVariant::Hex => hex_text(b),
    }
}

/// Relies on `hex::encode`: two lower-case hex digits per byte, high half
/// first (its table is `0123456789abcdef`).
#[verifier::external_body]
fn encode_hex(bytes: &[u8]) -> (r: String)
    ensures
        r@ == hex_of(bytes@),
{
    hex::encode(bytes)
}

/// Relies on `String::from_utf8_lossy`: the text depends on the bytes alone.
#[verifier::external_body]
fn utf8_lossy(bytes: &[u8]) -> (r: String)
    ensures
        r@ == utf8_lossy_of(bytes@),
{
    String::from_utf8_lossy(bytes).into_owned()
}

proof fn lemma_hex_of(b: Seq<u8>)
    ensures
        hex_of(b).len() == 2 * b.len(),
        is_ascii_chars(hex_of(b)),
    decreases b.len(),
{
    if b.len() > 0 {
        lemma_hex_of(b.drop_last());
        let h = hex_of(b);
        let p = hex_of(b.drop_last());
        assert forall|i: int| 0 <= i < h.len() implies '\0' <= #[trigger] h[i] <= '\u{7f}' by {
            if i < p.len() {
                assert(h[i] == p[i]);
            }
        }
    }
}

fn digit_str(d: u8) -> (r: &'static str)
    requires
        d < 10,
    ensures
        r@ == seq![digit_char(d as int)],
{
    if d == 0 {
        proof {
            reveal_strlit("0");
        }
        "0"
    } else if d == 1 {
        proof {
            reveal_strlit("1");
        }
        "1"
    } else if d == 2 {
        proof {
            reveal_strlit("2");
        }
        "2"
    } else if d == 3 {
        proof {
            reveal_strlit("3");
        }
        "3"
    } else if d == 4 {
        proof {
            reveal_strlit("4");
        }
        "4"
    } else if d == 5 {
        proof {
            reveal_strlit("5");
        }
        "5"
    } else if d == 6 {
        proof {
            reveal_strlit("6");
        }
        "6"
    } else if d == 7 {
        proof {
            reveal_strlit("7");
        }
        "7"
    } else if d == 8 {
        proof {
            reveal_strlit("8");
        }
        "8"
    } else {
        proof {
            reveal_strlit("9");
        }
        "9"
    }
}

fn push_dec(s: &mut String, b: u8)
    ensures
        final(s)@ == old(s)@ + dec_of(b),
{
    if b >= 100 {
        s.append(digit_str(b / 100));
        s.append(digit_str((b / 10) % 10));
        s.append(digit_str(b % 10));
    } else if b >= 10 {
        s.append(digit_str(b / 10));
        s.append(digit_str(b % 10));
    } else {
        s.append(digit_str(b));
    }
    assert(s@ =~= old(s)@ + dec_of(b));
}

/// Integer rendering of a byte string (see `slice_text`).
pub fn bytes_as_slice(bytes: &[u8]) -> (r: String)
    ensures
        r@ == slice_text(bytes@),
{
    proof {
        reveal_strlit("[");
        reveal_strlit("]");
        reveal_strlit(", ");
        reveal_strlit(",");
        reveal_strlit("...");
    }
    let mut buf = String::from_str("[");
    let n = bytes.len();
    if n <= MAX_BYTES {
        let mut i: usize = 0;
        while i < n
            invariant
                n == bytes@.len(),
                i <= n,
                buf@ == seq!['['] + dec_list(bytes@.subrange(0, i as int)),
            decreases n - i,
        {
            proof {
                reveal_strlit(", ");
            }
            if i > 0 {
                buf.append(", ");
            }
            push_dec(&mut buf, bytes[i]);
            proof {
                let p = bytes@.subrange(0, i + 1);
                assert(p.drop_last() =~= bytes@.subrange(0, i as int));
                assert(p.last() == bytes@[i as int]);
                if i == 0 {
                    assert(p[0] == bytes@[0]);
                    assert(dec_list(bytes@.subrange(0, 0)) == Seq::<char>::empty());
                    assert(dec_list(p) == dec_of(bytes@[0]));
                } else {
                    assert(dec_list(p) == dec_list(p.drop_last()) + seq![',', ' '] + dec_of(p.last()));
                }
                assert(buf@ =~= seq!['['] + dec_list(p));
            }
            i = i + 1;
        }
        buf.append("]");
        assert(bytes@.subrange(0, n as int) =~= bytes@);
        assert(buf@ =~= slice_text(bytes@));
    } else {
        let mut i: usize = 0;
        while i < n
            invariant
                n == bytes@.len(),
                i <= n,
                buf@ == seq!['['] + dec_each(bytes@.subrange(0, i as int)),
            decreases n - i,
        {
            push_dec(&mut buf, bytes[i]);
            proof {
                reveal_strlit(",");
            }
            buf.append(",");
            proof {
                let p = bytes@.subrange(0, i + 1);
                assert(p.drop_last() =~= bytes@.subrange(0, i as int));
                assert(p.last() == bytes@[i as int]);
                assert(dec_each(p) == dec_each(p.drop_last()) + dec_of(p.last()) + seq![',']);
                assert(buf@ =~= seq!['['] + dec_each(p));
            }
            i = i + 1;
        }
        buf.append("...");
        assert(bytes@.subrange(0, n as int) =~= bytes@);
        assert(buf@ =~= slice_text(bytes@));
    }
    buf
}

/// Hex rendering of a byte string, shortened when long (see `hex_text`).
pub fn bytes_as_hex(bytes: &[u8]) -> (r: String)
    ensures
        r@ == hex_text(bytes@),
{
    let hex_str = encode_hex(bytes);
    proof {
        lemma_hex_of(bytes@);
    }
    let len = hex_str.as_str().unicode_len();
    if len <= MAX_HEX_LENGTH {
        hex_str
    } else {
        let s = hex_str.as_str();
        let mut buf = String::from_str(s.substring_ascii(0, HEX_PARTS_LENGTH));
        proof {
            reveal_strlit("..");
        }
        buf.append("..");
        buf.append(s.substring_ascii(len - HEX_PARTS_LENGTH, len));
        assert(buf@ =~= hex_text(bytes@));
        buf
    }
}

/// Rendering of a byte string in the given variant.
pub fn bytes_by_display_variant(bytes: &[u8], display_variant: &DisplayVariant) -> (r: String)
    ensures
        r@ == display_text(bytes@, *display_variant),
{
    match display_variant {
        DisplayVariant::U8 => bytes_as_slice(bytes),
        DisplayVariant::String => utf8_lossy(bytes),
        DisplayVariant::Hex => bytes_as_hex(bytes),
    }
}

/// Short label of a path: its last segment, after its parent's and `..., `
/// when there are more; `Root subtree` for the empty path.
pub open spec fn path_label_of(p: Seq<Seq<u8>>, v: DisplayVariant) -> Seq<char> {
    if p.len() == 0 {
        seq!['R', 'o', 'o', 't', ' ', 's', 'u', 'b', 't', 'r', 'e', 'e']
    } else if p.len() == 1 {
        seq!['['] + display_text(p[0], v) + seq![']']
    } else {
        let head = if p.len() > 2 {
            seq!['.', '.', '.', ',', ' ']
        } else {
            Seq::empty()
        };
        seq!['['] + head + display_text(p[p.len() - 2], v) + seq![',', ' '] + display_text(
            p.last(),
            v,
        ) + seq![']']
    }
}

/// Every segment of a non-empty path, separated by `", "`, in brackets.
pub open spec fn path_full_of(p: Seq<Seq<u8>>, v: DisplayVariant) -> Seq<char>
    decreases p.len(),
{
    if p.len() <= 1 {
        seq!['['] + if p.len() == 1 {
            display_text(p[0], v)
        } else {
            Seq::empty()
        } + seq![']']
    } else {
        path_full_of(p.drop_last(), v).drop_last() + seq![',', ' '] + display_text(p.last(), v)
            + seq![']']
    }
}

/// Short label of a path (see `path_label_of`).
pub fn path_label_text(path: &Path, display_variant: &DisplayVariant) -> (r: String)
    ensures
        r@ == path_label_of(path@, *display_variant),
{
    let n = path.len();
    if n == 0 {
        proof {
            reveal_strlit("Root subtree");
        }
        return String::from_str("Root subtree");
    }
    proof {
        reveal_strlit("[");
        reveal_strlit("]");
        reveal_strlit("..., ");
        reveal_strlit(", ");
    }
    let mut text = String::from_str("[");
    if n >= 2 {
        if n > 2 {
            text.append("..., ");
        }
        let parent = bytes_by_display_variant(path.segment(n - 2).as_slice(), display_variant);
        text.append(parent.as_str());
        text.append(", ");
    }
    let last = bytes_by_display_variant(path.segment(n - 1).as_slice(), display_variant);
    text.append(last.as_str());
    text.append("]");
    assert(text@ =~= path_label_of(path@, *display_variant));
    text
}

/// Full label of a path (see `path_full_of`).
pub fn path_full_text(path: &Path, display_variant: &DisplayVariant) -> (r: String)
    ensures
        r@ == path_full_of(path@, *display_variant),
{
    proof {
        reveal_strlit("[");
        reveal_strlit("]");
        reveal_strlit(", ");
    }
    let n = path.len();
    let mut text = String::from_str("[");
    let mut i: usize = 0;
    while i < n
        invariant
            n == path@.len(),
            i <= n,
            i == 0 ==> text@ == seq!['['],
            i > 0 ==> text@ + seq![']'] == path_full_of(path@.subrange(0, i as int), *display_variant),
        decreases n - i,
    {
        let ghost before = text@;
        proof {
            reveal_strlit(", ");
        }
        if i > 0 {
            text.append(", ");
        }
        let seg = bytes_by_display_variant(path.segment(i).as_slice(), display_variant);
        text.append(seg.as_str());
        proof {
            let p = path@.subrange(0, i + 1);
            assert(p.drop_last() =~= path@.subrange(0, i as int));
            assert(p.last() == path@[i as int]);
            if i > 0 {
                assert((before + seq![']']).drop_last() =~= before);
                assert(path_full_of(p, *display_variant) == path_full_of(p.drop_last(), *display_variant).drop_last()
                    + seq![',', ' '] + display_text(p.last(), *display_variant) + seq![']']);
            } else {
                assert(p[0] == path@[0]);
            }
            assert(text@ + seq![']'] =~= path_full_of(p, *display_variant));
        }
        i = i + 1;
    }
    text.append("]");
    proof {
        assert(path@.subrange(0, n as int) =~= path@);
        if n == 0 {
            assert(text@ =~= path_full_of(path@, *display_variant));
        }
    }
    text
}

} // verus!
