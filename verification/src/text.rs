//! Text in and out of the buffer: strings and raw code points on the
//! outside, sequences of `char` inside.

use vstd::prelude::*;

verus! {

/// `String::push` appends the given `char` to the end of the string.
pub assume_specification[ String::push ](s: &mut String, c: char)
    ensures
        final(s)@ == old(s)@.push(c),
;

/// `char::from_u32` converts a `u32` to the `char` with that code point.
/// It gives `None` exactly where the value is no Unicode scalar value: a
/// surrogate, or a value above `0x10FFFF`.
pub assume_specification[ char::from_u32 ](i: u32) -> (r: Option<char>)
    ensures
        r == (if is_scalar_value(i) {
            Some(i as char)
        } else {
            None
        }),
;

/// `unit` is a Unicode scalar value: a code point that is no surrogate.
pub open spec fn is_scalar_value(unit: u32) -> bool {
    unit <= 0xD7FF || 0xE000 <= unit <= 0x10FFFF
}

/// Every unit of `units` is a Unicode scalar value.
pub open spec fn all_scalar_values(units: Seq<u32>) -> bool {
    forall|i: int| 0 <= i < units.len() ==> is_scalar_value(#[trigger] units[i])
}

/// The text whose code points are `units`.
pub open spec fn text_of_units(units: Seq<u32>) -> Seq<char> {
    units.map_values(|u: u32| u as char)
}

/// The code points of `s`, in order.
pub fn chars_of(s: &str) -> (r: Vec<char>)
    ensures
        r@ == s@,
{
    let mut out: Vec<char> = Vec::new();
    for c in it: s.chars()
        invariant
            it.seq() == s@,
            out@ == s@.take(it.index() as int),
    {
        out.push(c);
    }
    out
}

/// Appends the code points of `run` to `out`.
pub fn push_chars(out: &mut String, run: &[char])
    ensures
        final(out)@ == old(out)@ + run@,
{
    let mut i: usize = 0;
    while i < run.len()
        invariant
            i <= run.len(),
            out@ == old(out)@ + run@.take(i as int),
        decreases run.len() - i,
    {
        out.push(run[i]);
        i = i + 1;
    }
    assert(run@.take(i as int) =~= run@);
}

/// The text whose code points are `units`, or `None` where one of them is
/// no Unicode scalar value.
pub fn decode_units(units: &[u32]) -> (r: Option<Vec<char>>)
    ensures
        r is Some <==> all_scalar_values(units@),
        r matches Some(text) ==> text@ == text_of_units(units@),
{
    let mut out: Vec<char> = Vec::new();
    let mut i: usize = 0;
    while i < units.len()
        invariant
            i <= units.len(),
            all_scalar_values(units@.take(i as int)),
            out@ == text_of_units(units@.take(i as int)),
        decreases units.len() - i,
    {
        match char::from_u32(units[i]) {
            Some(c) => {
                out.push(c);
            },
            None => {
                return None;
            },
        }
        i = i + 1;
    }
    assert(units@.take(i as int) =~= units@);
    Some(out)
}

} // verus!
