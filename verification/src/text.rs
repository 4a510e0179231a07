//! Turning text into a stream of 7-bit character codes.

use vstd::prelude::*;

verus! {

/// The low byte of a character's code point.
pub open spec fn low_byte(c: char) -> u8 {
    ((c as u32) % 256) as u8
}

/// Codes 32 to 127 are kept; the others are skipped.
pub open spec fn is_kept(b: u8) -> bool {
    32 <= b <= 127
}

/// The 7 low bits of `b`, most significant first.
pub open spec fn seven_bits(b: u8) -> Seq<u8> {
    Seq::new(7, |t: int| ((b >> ((6 - t) as u8)) & 1u8) as u8)
}

/// The bits of a text: for each character whose low byte is kept, its seven
/// low bits, most significant first.
pub open spec fn text_bits(s: Seq<char>) -> Seq<u8>
    decreases s.len(),
{
    if s.len() == 0 {
        Seq::empty()
    } else {
        let b = low_byte(s.last());
        text_bits(s.drop_last()) + if is_kept(b) {
            seven_bits(b)
        } else {
            Seq::empty()
        }
    }
}

/// The bit stream of `text`: each character is cut to the low byte of its
/// code; a byte from 32 to 127 gives its 7 low bits, most significant first,
/// and any other byte gives nothing.
pub fn string_to_bits(text: &str) -> (bits: Vec<u8>)
    ensures
        bits@ == text_bits(text@),
{
    broadcast use vstd::string::axiom_spec_iter;

    let mut bits: Vec<u8> = Vec::new();
    for ch in it: text.chars()
        invariant
            it.seq() == text@,
            bits@ == text_bits(text@.take(it.index() as int)),
    {
        let ghost before = bits@;
        let code: u32 = ch as u32;
        let ascii_val: u8 = (code & 0xff) as u8;
        proof {
            assert(code & 0xff == code % 256) by (bit_vector);
        }
        if 32 <= ascii_val && ascii_val <= 127 {
            let mut i: u8 = 7;
            while i > 0
                invariant
                    i <= 7,
                    bits@ == before + seven_bits(ascii_val).take(7 - i),
                decreases i,
            {
                i = i - 1;
                bits.push((ascii_val >> i) & 1);
                assert(bits@ =~= before + seven_bits(ascii_val).take(7 - i));
            }
            assert(seven_bits(ascii_val).take(7) =~= seven_bits(ascii_val));
        }
        proof {
            let prefix = text@.take(it.index() + 1);
            assert(prefix.drop_last() =~= text@.take(it.index() as int));
            assert(prefix.last() == ch);
            if !is_kept(ascii_val) {
                assert(bits@ =~= before + Seq::<u8>::empty());
            }
        }
    }
    assert(text@.take(text@.len() as int) =~= text@);
    bits
}

/// Every entry of the bit stream of a text is 0 or 1, and each kept
/// character gives exactly seven of them.
pub proof fn lemma_text_bits_binary(s: Seq<char>)
    ensures
        forall|i: int| 0 <= i < text_bits(s).len() ==> #[trigger] text_bits(s)[i] <= 1,
        text_bits(s).len() % 7 == 0,
    decreases s.len(),
{
    if s.len() > 0 {
        lemma_text_bits_binary(s.drop_last());
        let b = low_byte(s.last());
        let front = text_bits(s.drop_last());
        let tail = if is_kept(b) {
            seven_bits(b)
        } else {
            Seq::<u8>::empty()
        };
        assert forall|t: int| 0 <= t < 7 implies #[trigger] seven_bits(b)[t] <= 1 by {
            let sh: u8 = (6 - t) as u8;
            assert((b >> sh) & 1u8 <= 1u8) by (bit_vector);
        }
        assert(text_bits(s) == front + tail);
        assert forall|i: int| 0 <= i < text_bits(s).len() implies #[trigger] text_bits(s)[i] <= 1 by {
            if i >= front.len() {
                assert(text_bits(s)[i] == tail[i - front.len()]);
            } else {
                assert(text_bits(s)[i] == front[i]);
            }
        }
        vstd::arithmetic::div_mod::lemma_mod_add_multiples_vanish(front.len() as int, 7);
    }
}

/// Appending a character to a text: when the low byte `b` of its code is from
/// 32 to 127, the bit stream grows by the seven low bits of `b`, most
/// significant first; otherwise the bit stream stays as it was.
pub proof fn lemma_text_bits_push(s: Seq<char>, c: char)
    ensures
        ({
            let b = (c as u32) % 256;
            if 32 <= b <= 127 {
                text_bits(s.push(c)) == text_bits(s) + seq![
                    ((b / 64) % 2) as u8,
                    ((b / 32) % 2) as u8,
                    ((b / 16) % 2) as u8,
                    ((b / 8) % 2) as u8,
                    ((b / 4) % 2) as u8,
                    ((b / 2) % 2) as u8,
                    (b % 2) as u8,
                ]
            } else {
                text_bits(s.push(c)) == text_bits(s)
            }
        }),
{
    let t = s.push(c);
    assert(t.drop_last() =~= s);
    assert(t.last() == c);
    let bb: u8 = low_byte(c);
    let b = (c as u32) % 256;
    assert(bb == b);
    assert((bb >> 6u8) & 1u8 == (bb / 64) % 2 && (bb >> 5u8) & 1u8 == (bb / 32) % 2 && (bb >> 4u8)
        & 1u8 == (bb / 16) % 2 && (bb >> 3u8) & 1u8 == (bb / 8) % 2 && (bb >> 2u8) & 1u8 == (bb
        / 4) % 2 && (bb >> 1u8) & 1u8 == (bb / 2) % 2 && (bb >> 0u8) & 1u8 == bb % 2)
        by (bit_vector);
    if is_kept(bb) {
        assert(seven_bits(bb) =~= seq![
            ((b / 64) % 2) as u8,
            ((b / 32) % 2) as u8,
            ((b / 16) % 2) as u8,
            ((b / 8) % 2) as u8,
            ((b / 4) % 2) as u8,
            ((b / 2) % 2) as u8,
            (b % 2) as u8,
        ]);
    } else {
        assert(text_bits(t) =~= text_bits(s));
    }
}

/// The empty text gives no bits.
pub proof fn lemma_text_bits_empty()
    ensures
        text_bits(Seq::<char>::empty()) == Seq::<u8>::empty(),
{
}

} // verus!
