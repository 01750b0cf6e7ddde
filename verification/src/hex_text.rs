//! The words of the multi-word integer types as hexadecimal text, most
//! significant word first, for inspection.

use vstd::prelude::*;
use vstd::string::*;
use crate::types::{BidUint128, BidUint192, BidUint256, BidUint384, BidUint512};

verus! {

/// The upper-case character of the hexadecimal digit `d`.
pub open spec fn hex_char(d: nat) -> char {
    if d < 10 {
        (48 + d) as char
    } else {
        (55 + d) as char
    }
}

/// The last `k` hexadecimal digits of `v`, most significant first.
pub open spec fn hex_digits(v: nat, k: nat) -> Seq<char>
    decreases k,
{
    if k == 0 {
        Seq::empty()
    } else {
        hex_digits(v / 16, (k - 1) as nat).push(hex_char(v % 16))
    }
}

/// The words, each as 16 hexadecimal digits, separated by spaces.
pub open spec fn joined_words(ws: Seq<u64>) -> Seq<char>
    decreases ws.len(),
{
    if ws.len() == 0 {
        Seq::empty()
    } else if ws.len() == 1 {
        hex_digits(ws[0] as nat, 16)
    } else {
        joined_words(ws.drop_last()) + seq![' '] + hex_digits(ws.last() as nat, 16)
    }
}

/// The words in square brackets, each as 16 hexadecimal digits,
/// separated by spaces.
pub open spec fn words_text(ws: Seq<u64>) -> Seq<char> {
    seq!['['] + joined_words(ws) + seq![']']
}

/// Appends a one-character literal.
fn push_char_lit(s: &mut String, t: &str, Ghost(c): Ghost<char>)
    requires
        t@ =~= seq![c],
    ensures
        final(s)@ == old(s)@.push(c),
{
    s.append(t);
}

/// Appends the character of hexadecimal digit `d`.
fn push_hex_char(s: &mut String, d: u64)
    requires
        d < 16,
    ensures
        final(s)@ == old(s)@.push(hex_char(d as nat)),
{
    let t: &str = if d == 0 {
        proof { reveal_strlit("0"); }
        "0"
    } else if d == 1 {
        proof { reveal_strlit("1"); }
        "1"
    } else if d == 2 {
        proof { reveal_strlit("2"); }
        "2"
    } else if d == 3 {
        proof { reveal_strlit("3"); }
        "3"
    } else if d == 4 {
        proof { reveal_strlit("4"); }
        "4"
    } else if d == 5 {
        proof { reveal_strlit("5"); }
        "5"
    } else if d == 6 {
        proof { reveal_strlit("6"); }
        "6"
    } else if d == 7 {
        proof { reveal_strlit("7"); }
        "7"
    } else if d == 8 {
        proof { reveal_strlit("8"); }
        "8"
    } else if d == 9 {
        proof { reveal_strlit("9"); }
        "9"
    } else if d == 10 {
        proof { reveal_strlit("A"); }
        "A"
    } else if d == 11 {
        proof { reveal_strlit("B"); }
        "B"
    } else if d == 12 {
        proof { reveal_strlit("C"); }
        "C"
    } else if d == 13 {
        proof { reveal_strlit("D"); }
        "D"
    } else if d == 14 {
        proof { reveal_strlit("E"); }
        "E"
    } else {
        proof { reveal_strlit("F"); }
        "F"
    };
    push_char_lit(s, t, Ghost(hex_char(d as nat)));
}

/// Appends the last `k` hexadecimal digits of `v`.
fn push_hex_digits(s: &mut String, v: u64, k: u32)
    ensures
        final(s)@ == old(s)@ + hex_digits(v as nat, k as nat),
    decreases k,
{
    if k > 0 {
        push_hex_digits(s, v / 16, k - 1);
        push_hex_char(s, v % 16);
        proof {
            assert(hex_digits(v as nat, k as nat) == hex_digits((v / 16) as nat, (k - 1) as nat).push(hex_char((v % 16) as nat)));
        }
    }
    proof {
        assert(old(s)@ + hex_digits(v as nat, k as nat) =~= final(s)@);
    }
}

/// The words, most significant first, as `words_text` writes them.
pub fn words_string(ws: &Vec<u64>) -> (r: String)
    ensures
        r@ == words_text(ws@),
{
    let mut s = String::new();
    proof { reveal_strlit("["); }
    push_char_lit(&mut s, "[", Ghost('['));
    let mut i: usize = 0;
    while i < ws.len()
        invariant
            i <= ws.len(),
            s@ == seq!['['] + joined_words(ws@.take(i as int)),
        decreases ws.len() - i,
    {
        let ghost before = s@;
        if i > 0 {
            proof { reveal_strlit(" "); }
            push_char_lit(&mut s, " ", Ghost(' '));
        }
        push_hex_digits(&mut s, ws[i], 16);
        proof {
            let t = ws@.take(i as int + 1);
            assert(t.drop_last() =~= ws@.take(i as int));
            assert(t.last() == ws@[i as int]);
            assert(s@ =~= seq!['['] + joined_words(t));
        }
        i = i + 1;
    }
    proof { reveal_strlit("]"); }
    push_char_lit(&mut s, "]", Ghost(']'));
    proof {
        assert(ws@.take(ws@.len() as int) =~= ws@);
    }
    s
}

impl BidUint128 {
    /// The words as hexadecimal text, most significant first:
    /// `[hhhhhhhhhhhhhhhh llllllllllllllll]`.
    pub fn to_debug_string(&self) -> (r: String)
        ensures
            r@ == words_text(seq![self.w[1], self.w[0]]),
    {
        let ws: Vec<u64> = vec![self.w[1], self.w[0]];
        proof { assert(ws@ =~= seq![self.w[1], self.w[0]]); }
        words_string(&ws)
    }
}

impl BidUint192 {
    /// The words as hexadecimal text, most significant first.
    pub fn to_debug_string(&self) -> (r: String)
        ensures
            r@ == words_text(seq![self.w[2], self.w[1], self.w[0]]),
    {
        let ws: Vec<u64> = vec![self.w[2], self.w[1], self.w[0]];
        proof { assert(ws@ =~= seq![self.w[2], self.w[1], self.w[0]]); }
        words_string(&ws)
    }
}

impl BidUint256 {
    /// The words as hexadecimal text, most significant first.
    pub fn to_debug_string(&self) -> (r: String)
        ensures
            r@ == words_text(seq![self.w[3], self.w[2], self.w[1], self.w[0]]),
    {
        let ws: Vec<u64> = vec![self.w[3], self.w[2], self.w[1], self.w[0]];
        proof { assert(ws@ =~= seq![self.w[3], self.w[2], self.w[1], self.w[0]]); }
        words_string(&ws)
    }
}

impl BidUint384 {
    /// The words as hexadecimal text, most significant first.
    pub fn to_debug_string(&self) -> (r: String)
        ensures
            r@ == words_text(seq![self.w[5], self.w[4], self.w[3], self.w[2], self.w[1], self.w[0]]),
    {
        let ws: Vec<u64> = vec![self.w[5], self.w[4], self.w[3], self.w[2], self.w[1], self.w[0]];
        proof { assert(ws@ =~= seq![self.w[5], self.w[4], self.w[3], self.w[2], self.w[1], self.w[0]]); }
        words_string(&ws)
    }
}

impl BidUint512 {
    /// The words as hexadecimal text, most significant first.
    pub fn to_debug_string(&self) -> (r: String)
        ensures
            r@ == words_text(seq![self.w[7], self.w[6], self.w[5], self.w[4], self.w[3], self.w[2], self.w[1], self.w[0]]),
    {
        let ws: Vec<u64> = vec![self.w[7], self.w[6], self.w[5], self.w[4], self.w[3], self.w[2], self.w[1], self.w[0]];
        proof { assert(ws@ =~= seq![self.w[7], self.w[6], self.w[5], self.w[4], self.w[3], self.w[2], self.w[1], self.w[0]]); }
        words_string(&ws)
    }
}

} // verus!
