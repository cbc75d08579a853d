//! Building blocks for fixed-width text: runs of one character, and cells
//! padded to a width.
//!
//! A cell's width counts characters, as the padding of formatted text does,
//! while the width a column asks for is measured in bytes of UTF-8. Widths are
//! taken as `u128` so that a column width plus its margin never overflows.

use vstd::prelude::*;
use vstd::string::*;
use vstd::utf8::*;

verus! {

/// `n` copies of `c`.
pub open spec fn run(c: char, n: nat) -> Seq<char> {
    Seq::new(n, |i: int| c)
}

/// The number of bytes that `s` takes in UTF-8.
pub open spec fn byte_count(s: Seq<char>) -> nat {
    encode_utf8(s).len()
}

/// How many characters a text of `len` characters lacks to fill `width`.
pub open spec fn gap(len: nat, width: nat) -> nat {
    if width > len {
        (width - len) as nat
    } else {
        0
    }
}

/// `s` followed by the spaces that bring it to `width` characters; `s` itself
/// where it is that long already.
pub open spec fn left_aligned(s: Seq<char>, width: nat) -> Seq<char> {
    s + run(' ', gap(s.len(), width))
}

/// `s` between the spaces that bring it to `width` characters, the odd space
/// going to the right; `s` itself where it is that long already.
pub open spec fn centered(s: Seq<char>, width: nat) -> Seq<char> {
    let g = gap(s.len(), width);
    run(' ', g / 2) + s + run(' ', (g - g / 2) as nat)
}

/// The larger of two numbers.
pub open spec fn larger(a: nat, b: nat) -> nat {
    if a >= b {
        a
    } else {
        b
    }
}

/// The width that holds a label of `floor` bytes and the first `n` of
/// `texts`: the largest of their lengths in bytes.
pub open spec fn widest(floor: nat, texts: Seq<Seq<char>>, n: nat) -> nat
    decreases n,
{
    if n == 0 {
        floor
    } else {
        larger(widest(floor, texts, (n - 1) as nat), byte_count(texts[n - 1]))
    }
}

/// The widest of a column is at least its label, at least each cell, and
/// the length of one of them.
pub proof fn lemma_widest(floor: nat, texts: Seq<Seq<char>>, n: nat)
    requires
        n <= texts.len(),
    ensures
        widest(floor, texts, n) >= floor,
        forall|i: int| 0 <= i < n ==> widest(floor, texts, n) >= byte_count(#[trigger] texts[i]),
        widest(floor, texts, n) == floor || exists|i: int|
            0 <= i < n && widest(floor, texts, n) == byte_count(#[trigger] texts[i]),
    decreases n,
{
    if n > 0 {
        lemma_widest(floor, texts, (n - 1) as nat);
        let before = widest(floor, texts, (n - 1) as nat);
        if widest(floor, texts, n) == before {
            if before != floor {
                let i = choose|i: int| 0 <= i < n - 1 && before == byte_count(#[trigger] texts[i]);
                assert(0 <= i < n && widest(floor, texts, n) == byte_count(texts[i]));
            }
        } else {
            assert(widest(floor, texts, n) == byte_count(texts[n - 1]));
        }
    }
}

/// An ASCII text takes one byte for each character.
pub proof fn lemma_byte_count_ascii(s: Seq<char>)
    requires
        is_ascii_chars(s),
    ensures
        byte_count(s) == s.len(),
{
    is_ascii_chars_encode_utf8(s);
}

/// A text has at most as many characters as it takes bytes.
pub proof fn lemma_chars_at_most_bytes(s: Seq<char>)
    ensures
        s.len() <= byte_count(s),
    decreases s.len(),
{
    if s.len() > 0 {
        lemma_chars_at_most_bytes(s.drop_first());
    }
}

/// A text that fits a width fills it when it is padded on the right or on
/// both sides.
pub proof fn lemma_padded_len(s: Seq<char>, width: nat)
    requires
        s.len() <= width,
    ensures
        left_aligned(s, width).len() == width,
        centered(s, width).len() == width,
{
}

/// Padding an ASCII text leaves it ASCII.
pub proof fn lemma_padded_ascii(s: Seq<char>, width: nat)
    requires
        is_ascii_chars(s),
    ensures
        is_ascii_chars(left_aligned(s, width)),
        is_ascii_chars(centered(s, width)),
{
}

/// The length of `s` in bytes of UTF-8.
pub fn byte_len(s: &str) -> (n: usize)
    ensures
        n == byte_count(s@),
{
    s.as_bytes().len()
}

/// A string of `n` copies of the character that `unit` holds.
fn repeat(unit: &str, n: u128) -> (out: String)
    requires
        unit@.len() == 1,
    ensures
        out@ == run(unit@[0], n as nat),
{
    let mut out = String::new();
    let mut i: u128 = 0;
    while i < n
        invariant
            i <= n,
            unit@.len() == 1,
            out@ == run(unit@[0], i as nat),
        decreases n - i,
    {
        out.append(unit);
        i += 1;
        assert(out@ =~= run(unit@[0], i as nat));
    }
    out
}

/// A string of `n` spaces.
pub fn spaces(n: u128) -> (out: String)
    ensures
        out@ == run(' ', n as nat),
{
    proof {
        reveal_strlit(" ");
    }
    repeat(" ", n)
}

/// A string of `n` zeros.
pub fn zeros(n: u128) -> (out: String)
    ensures
        out@ == run('0', n as nat),
{
    proof {
        reveal_strlit("0");
    }
    repeat("0", n)
}

/// A horizontal rule of `n` dashes.
pub fn rule(n: usize) -> (out: String)
    ensures
        out@ == run('-', n as nat),
{
    proof {
        reveal_strlit("-");
    }
    repeat("-", n as u128)
}

/// `s` padded with spaces on the right to `width` characters.
pub fn left_align(s: &str, width: u128) -> (out: String)
    ensures
        out@ == left_aligned(s@, width as nat),
{
    let len = s.unicode_len() as u128;
    let mut out = String::from_str(s);
    let pad = if width > len {
        width - len
    } else {
        0
    };
    let fill = spaces(pad);
    out.append(fill.as_str());
    out
}

/// `s` padded with spaces on both sides to `width` characters.
pub fn center(s: &str, width: u128) -> (out: String)
    ensures
        out@ == centered(s@, width as nat),
{
    let len = s.unicode_len() as u128;
    let pad = if width > len {
        width - len
    } else {
        0
    };
    let mut out = spaces(pad / 2);
    out.append(s);
    let fill = spaces(pad - pad / 2);
    out.append(fill.as_str());
    out
}

} // verus!
