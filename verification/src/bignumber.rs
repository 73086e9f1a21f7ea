//! The hexadecimal companion of a number: the text it was given as, and that
//! text cut into 64-bit chunks.

use crate::hex::{hex_chunks, hex_chunks_of, hex_digits, is_signed_hex, sign_length, text_chars};
use vstd::prelude::*;

verus! {

/// What a [`BigNumber`] holds: the text, and the chunks of its digits with
/// the least significant chunk first.
pub struct HexForm {
    pub text: Seq<char>,
    pub chunks: Seq<u64>,
}

/// The form that the text `s` is stored in: the text as it is, and the
/// chunks of its digits.
pub open spec fn hex_form(s: Seq<char>) -> HexForm {
    HexForm { text: s, chunks: hex_chunks(hex_digits(s)) }
}

/// The form with no text and no chunks.
pub open spec fn blank_form() -> HexForm {
    HexForm { text: Seq::empty(), chunks: Seq::empty() }
}

/// Storing a text and reading it back gives the same text.
pub proof fn lemma_hex_round_trip(s: Seq<char>)
    ensures
        hex_form(s).text == s,
{
}

/// A number as hexadecimal text with its 64-bit chunks.
#[derive(Debug)]
pub struct BigNumber {
    data: Vec<u64>,
    hex: String,
}

impl View for BigNumber {
    type V = HexForm;

    closed spec fn view(&self) -> HexForm {
        HexForm { text: self.hex@, chunks: self.data@ }
    }
}

impl Clone for BigNumber {
    fn clone(&self) -> (copy: Self)
        ensures
            copy@ == self@,
    {
        BigNumber { data: self.data.clone(), hex: self.hex.clone() }
    }
}

impl BigNumber {
    /// A number with no text and a single zero chunk.
    pub fn new() -> (fresh: Self)
        ensures
            fresh@ == (HexForm { text: Seq::empty(), chunks: seq![0u64] }),
    {
        let mut data: Vec<u64> = Vec::new();
        data.push(0);
        assert(data@ =~= seq![0u64]);
        BigNumber { data, hex: String::new() }
    }

    /// A number with no text and no chunks.
    pub fn blank() -> (fresh: Self)
        ensures
            fresh@ == blank_form(),
    {
        BigNumber { data: Vec::new(), hex: String::new() }
    }

    /// Stores `hex` as it is, and the chunks of its digits.  The text must be
    /// hexadecimal digits, with or without a minus sign in front;
    /// [`is_valid_hex`](crate::hex::is_valid_hex) tells whether it is.
    pub fn set_hex(&mut self, hex: &str)
        requires
            is_signed_hex(hex@),
        ensures
            final(self)@ == hex_form(hex@),
    {
        let chars = text_chars(hex);
        let start = sign_length(&chars);
        self.data = hex_chunks_of(&chars, start);
        self.hex = hex.to_owned();
    }

    /// The text as it was stored.
    pub fn get_hex(&self) -> (text: String)
        ensures
            text@ == self@.text,
    {
        self.hex.clone()
    }

    /// The chunks, least significant first.
    pub fn data(&self) -> (chunks: &Vec<u64>)
        ensures
            chunks@ == self@.chunks,
    {
        &self.data
    }
}

} // verus!
