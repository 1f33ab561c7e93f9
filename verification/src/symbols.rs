use vstd::prelude::*;
use crate::bin_num::pow2;
use crate::compared_element::ComparedElement;
use crate::error::DeflateError;
use crate::lz77::Lz77Element;
use crate::lz77::MAX_COINCIDENCE_SIZE;

verus! {

/// The number of symbols in the literal/length alphabet.
pub const LITERAL_ALPHABET_SIZE: usize = 286;

/// The number of symbols in the distance alphabet.
pub const DISTANCE_ALPHABET_SIZE: usize = 30;

/// The number of symbols in the code-length alphabet.
pub const LENGTH_ALPHABET_SIZE: usize = 19;

/// The symbol that ends a block.
pub const END_BLOCK_SYMBOL: i32 = 256;

/// The integer part of the binary logarithm; zero for zero.
pub open spec fn floor_log2(n: nat) -> nat
    decreases n,
{
    if n < 2 {
        0
    } else {
        1 + floor_log2(n / 2)
    }
}

/// A positive number lies between two to the power of its binary logarithm and
/// twice that.
pub proof fn lemma_floor_log2(n: nat)
    requires
        n >= 1,
    ensures
        pow2(floor_log2(n)) <= n < 2 * pow2(floor_log2(n)),
    decreases n,
{
    if n >= 2 {
        lemma_floor_log2(n / 2);
    }
}

/// A distance symbol with the extra bits that complete it.
#[derive(Debug, Clone, Copy, PartialEq, Eq, Structural)]
pub struct DeflateOffset {
    pub main_value: u8,
    pub additional_bits: u16,
}

/// The distance symbol of a distance in `1..=32768`.
pub open spec fn distance_main(d: int) -> int {
    if d <= 4 {
        d - 1
    } else {
        let p = floor_log2((d - 1) as nat) as int;
        let base = pow2(p as nat) + 1;
        let mid = base + base / 2 - 1;
        if d <= mid {
            2 * p
        } else {
            2 * p + 1
        }
    }
}

/// The value of the extra bits of a distance in `1..=32768`.
pub open spec fn distance_extra(d: int) -> int {
    if d <= 4 {
        0
    } else {
        let p = floor_log2((d - 1) as nat) as int;
        let base = pow2(p as nat) + 1;
        let mid = base + base / 2 - 1;
        if d <= mid {
            d - base
        } else {
            d - mid - 1
        }
    }
}

/// The smallest distance that a distance symbol stands for.
pub open spec fn distance_base(main: int) -> int {
    if main < 4 {
        main + 1
    } else {
        let base = pow2((main / 2) as nat) as int + 1;
        if main % 2 == 0 {
            base
        } else {
            base + base / 2
        }
    }
}

/// The number of extra bits that follow a distance symbol.
pub open spec fn distance_extra_bits(main: int) -> int {
    if main <= 3 {
        0
    } else {
        main / 2 - 1
    }
}

/// Every distance of the window is found again from its symbol and extra
/// bits, the symbol is one of the thirty, and the extra value fits its width.
pub proof fn lemma_distance_inverse(d: int)
    requires
        1 <= d <= 32768,
    ensures
        0 <= distance_main(d) <= 29,
        0 <= distance_extra(d) < pow2(distance_extra_bits(distance_main(d)) as nat),
        distance_base(distance_main(d)) + distance_extra(d) == d,
{
    if d <= 4 {
        assert(pow2(0) == 1);
    } else {
        let p = floor_log2((d - 1) as nat);
        lemma_floor_log2((d - 1) as nat);
        assert(p >= 2) by {
            if p < 2 {
                assert(pow2(p) <= 2) by {
                    reveal_with_fuel(pow2, 3);
                }
            }
        }
        assert(p <= 14) by {
            if p >= 15 {
                crate::bin_num::lemma_pow2_monotone(15, p);
                assert(pow2(15) == 32768) by {
                    reveal_with_fuel(pow2, 16);
                }
            }
        }
        let h = pow2((p - 1) as nat);
        assert(pow2(p) == 2 * h);
        assert((2 * p) / 2 == p);
        assert((2 * p + 1) / 2 == p);
    }
}

impl DeflateOffset {
    /// The symbol is one of the thirty, and the value of the extra bits fits
    /// the width that the symbol gives them.
    pub open spec fn well_formed(self) -> bool {
        self.main_value <= 29 && self.additional_bits < pow2(
            distance_extra_bits(self.main_value as int) as nat,
        )
    }

    /// The distance that the symbol and its extra bits stand for.
    pub open spec fn distance(self) -> int {
        distance_base(self.main_value as int) + self.additional_bits
    }

    /// The symbol and extra bits that stand for the distance `offset`.
    pub fn new(offset: u16) -> (symbol: DeflateOffset)
        requires
            1 <= offset <= 32768,
        ensures
            symbol.main_value == distance_main(offset as int),
            symbol.additional_bits == distance_extra(offset as int),
            symbol.well_formed(),
            symbol.distance() == offset,
    {
        proof {
            lemma_distance_inverse(offset as int);
        }
        if offset <= 4 {
            return DeflateOffset { main_value: (offset - 1) as u8, additional_bits: 0 };
        }
        proof {
            lemma_floor_log2((offset - 1) as nat);
        }
        let mut base_degree: u8 = 0;
        let mut power: u16 = 1;
        let mut rest: u16 = offset - 1;
        while rest >= 2
            invariant
                power == pow2(base_degree as nat),
                rest >= 1,
                rest * power <= offset - 1,
                floor_log2((offset - 1) as nat) == base_degree + floor_log2(rest as nat),
                offset <= 32768,
                base_degree <= 14,
            decreases rest,
        {
            proof {
                if base_degree >= 14 {
                    crate::bin_num::lemma_pow2_monotone(14, base_degree as nat);
                    assert(pow2(14) == 16384) by {
                        reveal_with_fuel(pow2, 15);
                    }
                    assert(2 * power <= rest * power) by (nonlinear_arith)
                        requires
                            rest >= 2,
                            power >= 0,
                    ;
                }
            }
            assert(2 * (rest / 2) * power <= rest * power) by (nonlinear_arith)
                requires
                    rest >= 2,
            ;
            assert((rest / 2) * (2 * power) == 2 * (rest / 2) * power) by (nonlinear_arith);
            assert(1 * (2 * power) <= (rest / 2) * (2 * power)) by (nonlinear_arith)
                requires
                    rest / 2 >= 1,
            ;
            rest = rest / 2;
            power = power * 2;
            base_degree = base_degree + 1;
        }
        let base_num: u16 = power + 1;
        let mid: u16 = base_num + base_num / 2 - 1;
        if offset <= mid {
            DeflateOffset { main_value: base_degree * 2, additional_bits: offset - base_num }
        } else {
            DeflateOffset { main_value: base_degree * 2 + 1, additional_bits: offset - mid - 1 }
        }
    }

    /// The smallest distance that the symbol stands for.
    pub fn get_base_offset(&self) -> (base: u16)
        requires
            self.main_value <= 29,
        ensures
            base == distance_base(self.main_value as int),
    {
        if self.main_value < 4 {
            return (self.main_value + 1) as u16;
        }
        let degree: u8 = self.main_value / 2;
        let mut power: u16 = 1;
        let mut i: u8 = 0;
        while i < degree
            invariant
                i <= degree <= 14,
                power == pow2(i as nat),
                power <= 16384,
            decreases degree - i,
        {
            proof {
                crate::bin_num::lemma_pow2_monotone((i + 1) as nat, 14);
                assert(pow2(14) == 16384) by {
                    reveal_with_fuel(pow2, 15);
                }
            }
            power = power * 2;
            i = i + 1;
        }
        let base_num: u16 = power + 1;
        if self.main_value % 2 == 0 {
            return base_num;
        }
        base_num + base_num / 2
    }

    /// The number of extra bits that follow the symbol.
    pub fn get_number_additional_bits(&self) -> (count: u8)
        ensures
            count == distance_extra_bits(self.main_value as int),
    {
        if self.main_value <= 3 {
            return 0;
        }
        self.main_value / 2 - 1
    }
}

/// A symbol of the code-length alphabet, with the count that a repeat carries.
#[derive(Debug, Clone, Copy, PartialEq, Eq, Structural)]
pub enum DeflateLength {
    /// A code length, `0..=15`.
    SimpleLength(u8),
    /// Repeat the previous length `3..=6` times.
    RetryPrevious(u8),
    /// Repeat length zero `3..=10` times.
    RetryZero(u8),
    /// Repeat length zero `11..=138` times.
    BigRetryZero(u8),
}

impl DeflateLength {
    /// The symbol's index in the code-length alphabet.
    pub open spec fn symbol(self) -> int {
        match self {
            DeflateLength::SimpleLength(v) => v as int,
            DeflateLength::RetryPrevious(_) => 16,
            DeflateLength::RetryZero(_) => 17,
            DeflateLength::BigRetryZero(_) => 18,
        }
    }

    /// The count of a repeat symbol lies in the range that its extra bits can
    /// write, and a plain length is at most fifteen.
    pub open spec fn well_formed(self) -> bool {
        match self {
            DeflateLength::SimpleLength(v) => v <= 15,
            DeflateLength::RetryPrevious(c) => 3 <= c <= 6,
            DeflateLength::RetryZero(c) => 3 <= c <= 10,
            DeflateLength::BigRetryZero(c) => 11 <= c <= 138,
        }
    }
}

/// A symbol of the literal/length alphabet. The variants with an extra value
/// carry the symbol and the value of the extra bits that follow it.
#[derive(Debug, Clone, Copy, PartialEq, Eq, Structural)]
pub enum DeflateElementType {
    JustElement(u8),
    EndBlock,
    LengthMatch(u16),
    LengthMatchWithAdd(u16, u8),
    LengthMatchWithBinAdd(u16, u8),
    LengthMatchWithThirdAdd(u16, u8),
    LengthMatchWithFourthAdd(u16, u8),
    LengthMatchWithFifthAdd(u16, u8),
    MaxMatchLength,
}

impl DeflateElementType {
    /// The symbol's index in the literal/length alphabet.
    pub open spec fn symbol(self) -> int {
        match self {
            DeflateElementType::JustElement(v) => v as int,
            DeflateElementType::EndBlock => 256,
            DeflateElementType::LengthMatch(l) => l as int,
            DeflateElementType::LengthMatchWithAdd(l, _) => l as int,
            DeflateElementType::LengthMatchWithBinAdd(l, _) => l as int,
            DeflateElementType::LengthMatchWithThirdAdd(l, _) => l as int,
            DeflateElementType::LengthMatchWithFourthAdd(l, _) => l as int,
            DeflateElementType::LengthMatchWithFifthAdd(l, _) => l as int,
            DeflateElementType::MaxMatchLength => 285,
        }
    }

    /// The value of the extra bits; zero where the symbol has none.
    pub open spec fn extra(self) -> int {
        match self {
            DeflateElementType::LengthMatchWithAdd(_, add) => add as int,
            DeflateElementType::LengthMatchWithBinAdd(_, add) => add as int,
            DeflateElementType::LengthMatchWithThirdAdd(_, add) => add as int,
            DeflateElementType::LengthMatchWithFourthAdd(_, add) => add as int,
            DeflateElementType::LengthMatchWithFifthAdd(_, add) => add as int,
            _ => 0,
        }
    }

    /// The symbol stands for the length of a match.
    pub open spec fn is_length(self) -> bool {
        !(self is JustElement) && !(self is EndBlock)
    }

    /// The variant is the one that belongs to the symbol it carries.
    pub open spec fn well_formed(self) -> bool {
        self == element_type_from_symbol(self.symbol(), self.extra())
    }

    /// The number of extra bits that follow the symbol.
    pub fn get_number_additional_bits(&self) -> (count: u8)
        ensures
            self.well_formed() ==> count == length_extra_bits(self.symbol()),
            count == match *self {
                DeflateElementType::LengthMatchWithAdd(_, _) => 1u8,
                DeflateElementType::LengthMatchWithBinAdd(_, _) => 2u8,
                DeflateElementType::LengthMatchWithThirdAdd(_, _) => 3u8,
                DeflateElementType::LengthMatchWithFourthAdd(_, _) => 4u8,
                DeflateElementType::LengthMatchWithFifthAdd(_, _) => 5u8,
                _ => 0u8,
            },
    {
        match self {
            DeflateElementType::JustElement(_) => 0,
            DeflateElementType::EndBlock => 0,
            DeflateElementType::LengthMatch(_) => 0,
            DeflateElementType::LengthMatchWithAdd(_, _) => 1,
            DeflateElementType::LengthMatchWithBinAdd(_, _) => 2,
            DeflateElementType::LengthMatchWithThirdAdd(_, _) => 3,
            DeflateElementType::LengthMatchWithFourthAdd(_, _) => 4,
            DeflateElementType::LengthMatchWithFifthAdd(_, _) => 5,
            DeflateElementType::MaxMatchLength => 0,
        }
    }

    /// The value of the extra bits of a symbol that has some.
    pub fn get_additional_bits(&self) -> (add: u8)
        requires
            self is LengthMatchWithAdd || self is LengthMatchWithBinAdd
                || self is LengthMatchWithThirdAdd || self is LengthMatchWithFourthAdd
                || self is LengthMatchWithFifthAdd,
        ensures
            add == self.extra(),
    {
        match self {
            DeflateElementType::LengthMatchWithAdd(_, add) => *add,
            DeflateElementType::LengthMatchWithBinAdd(_, add) => *add,
            DeflateElementType::LengthMatchWithThirdAdd(_, add) => *add,
            DeflateElementType::LengthMatchWithFourthAdd(_, add) => *add,
            DeflateElementType::LengthMatchWithFifthAdd(_, add) => *add,
            _ => 0,
        }
    }
}

/// The length symbol of a match length in `3..=258`.
pub open spec fn length_symbol(c: int) -> int {
    if c <= 10 {
        c + 254
    } else if c <= 18 {
        (c - 1) / 2 + 260
    } else if c <= 34 {
        (c + 1) / 4 + 264
    } else if c <= 66 {
        (c + 5) / 8 + 268
    } else if c <= 130 {
        (c - 3) / 16 + 273
    } else if c <= 257 {
        (c - 3) / 32 + 277
    } else {
        285
    }
}

/// The value of the extra bits of a match length in `3..=258`.
pub open spec fn length_extra(c: int) -> int {
    if c <= 10 {
        0
    } else if c <= 18 {
        (c - 1) % 2
    } else if c <= 34 {
        (c + 1) % 4
    } else if c <= 66 {
        (c + 5) % 8
    } else if c <= 130 {
        (c - 3) % 16
    } else if c <= 257 {
        (c - 3) % 32
    } else {
        0
    }
}

/// The number of extra bits that follow a length symbol in `257..=285`.
pub open spec fn length_extra_bits(s: int) -> int {
    if s < 265 || s >= 285 {
        0
    } else {
        (s - 261) / 4
    }
}

/// The match length that a length symbol in `257..=285` and the value of its
/// extra bits stand for.
pub open spec fn copy_length(s: int, e: int) -> int {
    if s <= 264 {
        s - 254
    } else if s <= 268 {
        (s - 265) * 2 + 11 + e
    } else if s <= 272 {
        (s - 269) * 4 + 19 + e
    } else if s <= 276 {
        (s - 273) * 8 + 35 + e
    } else if s <= 280 {
        (s - 277) * 16 + 67 + e
    } else if s <= 284 {
        (s - 281) * 32 + 131 + e
    } else {
        258
    }
}

/// Every match length is found again from its symbol and extra bits, the
/// symbol is a length symbol, and the extra value fits its width.
pub proof fn lemma_length_inverse(c: int)
    requires
        3 <= c <= 258,
    ensures
        257 <= length_symbol(c) <= 285,
        0 <= length_extra(c) < pow2(length_extra_bits(length_symbol(c)) as nat),
        copy_length(length_symbol(c), length_extra(c)) == c,
{
    reveal_with_fuel(pow2, 6);
}

/// The variant that carries the symbol `id` with the extra value `add`.
pub open spec fn element_type_from_symbol(id: int, add: int) -> DeflateElementType {
    if id <= 255 {
        DeflateElementType::JustElement(id as u8)
    } else if id == 256 {
        DeflateElementType::EndBlock
    } else if id <= 264 {
        DeflateElementType::LengthMatch(id as u16)
    } else if id <= 268 {
        DeflateElementType::LengthMatchWithAdd(id as u16, add as u8)
    } else if id <= 272 {
        DeflateElementType::LengthMatchWithBinAdd(id as u16, add as u8)
    } else if id <= 276 {
        DeflateElementType::LengthMatchWithThirdAdd(id as u16, add as u8)
    } else if id <= 280 {
        DeflateElementType::LengthMatchWithFourthAdd(id as u16, add as u8)
    } else if id <= 284 {
        DeflateElementType::LengthMatchWithFifthAdd(id as u16, add as u8)
    } else {
        DeflateElementType::MaxMatchLength
    }
}

/// The literal/length symbol of an element of the matcher's output.
pub open spec fn element_type_of(elem: Lz77Element) -> DeflateElementType {
    match elem {
        Lz77Element::SimpleValue(v) => DeflateElementType::JustElement(v),
        Lz77Element::ReferenceValue(r) => element_type_from_symbol(
            length_symbol(r.count as int),
            length_extra(r.count as int),
        ),
    }
}

/// A code-length symbol under its index in the code-length alphabet.
pub fn deflate_len_to_compared(elem: DeflateLength) -> (keyed: ComparedElement<DeflateLength>)
    ensures
        keyed.value == elem,
        keyed.sorting_value == elem.symbol(),
{
    match elem {
        DeflateLength::SimpleLength(v) => ComparedElement::new(elem, v as i32),
        DeflateLength::RetryPrevious(_) => ComparedElement::new(elem, 16),
        DeflateLength::RetryZero(_) => ComparedElement::new(elem, 17),
        DeflateLength::BigRetryZero(_) => ComparedElement::new(elem, 18),
    }
}

/// The literal/length symbol of an element of the matcher's output, under its
/// index in the alphabet. A reference whose length is no match length is
/// refused.
pub fn lz77_elem_to_compared_deflate_elem_type(elem: &Lz77Element) -> (keyed: Result<
    ComparedElement<DeflateElementType>,
    DeflateError,
>)
    ensures
        keyed is Ok <==> (elem matches Lz77Element::ReferenceValue(r) ==> 3 <= r.count <= 258),
        keyed matches Err(e) ==> e == DeflateError::InvalidSymbol,
        keyed matches Ok(k) ==> k.value == element_type_of(*elem) && k.sorting_value
            == k.value.symbol() && k.value.well_formed(),
        keyed matches Ok(k) ==> (elem matches Lz77Element::ReferenceValue(r) ==> 257
            <= k.sorting_value <= 285 && copy_length(k.value.symbol(), k.value.extra())
            == r.count),
{
    match elem {
        Lz77Element::SimpleValue(v) => Ok(
            ComparedElement::new(DeflateElementType::JustElement(*v), *v as i32),
        ),
        Lz77Element::ReferenceValue(r) => {
            let c: u16 = r.count;
            if c < 3 || c > 258 {
                return Err(DeflateError::InvalidSymbol);
            }
            proof {
                lemma_length_inverse(c as int);
                reveal_with_fuel(pow2, 6);
            }
            if c <= 10 {
                Ok(ComparedElement::new(DeflateElementType::LengthMatch(c + 254), (c + 254) as i32))
            } else if c <= 18 {
                Ok(
                    ComparedElement::new(
                        DeflateElementType::LengthMatchWithAdd((c - 1) / 2 + 260, ((c - 1) % 2) as u8),
                        ((c - 1) / 2 + 260) as i32,
                    ),
                )
            } else if c <= 34 {
                Ok(
                    ComparedElement::new(
                        DeflateElementType::LengthMatchWithBinAdd(
                            (c + 1) / 4 + 264,
                            ((c + 1) % 4) as u8,
                        ),
                        ((c + 1) / 4 + 264) as i32,
                    ),
                )
            } else if c <= 66 {
                Ok(
                    ComparedElement::new(
                        DeflateElementType::LengthMatchWithThirdAdd(
                            (c + 5) / 8 + 268,
                            ((c + 5) % 8) as u8,
                        ),
                        ((c + 5) / 8 + 268) as i32,
                    ),
                )
            } else if c <= 130 {
                Ok(
                    ComparedElement::new(
                        DeflateElementType::LengthMatchWithFourthAdd(
                            (c - 3) / 16 + 273,
                            ((c - 3) % 16) as u8,
                        ),
                        ((c - 3) / 16 + 273) as i32,
                    ),
                )
            } else if c <= 257 {
                Ok(
                    ComparedElement::new(
                        DeflateElementType::LengthMatchWithFifthAdd(
                            (c - 3) / 32 + 277,
                            ((c - 3) % 32) as u8,
                        ),
                        ((c - 3) / 32 + 277) as i32,
                    ),
                )
            } else {
                Ok(ComparedElement::new(DeflateElementType::MaxMatchLength, 285))
            }
        },
    }
}

/// The literal/length symbol with index `id` and extra value `add`, under that
/// index. An index outside the alphabet is refused.
pub fn to_compared_deflate_element_type(id: i32, add: u8) -> (keyed: Result<
    ComparedElement<DeflateElementType>,
    DeflateError,
>)
    ensures
        keyed is Ok <==> 0 <= id <= 285,
        keyed matches Err(e) ==> e == DeflateError::InvalidSymbol,
        keyed matches Ok(k) ==> k.value == element_type_from_symbol(id as int, add as int)
            && k.sorting_value == id && k.value.symbol() == id,
{
    if id < 0 || id > 285 {
        Err(DeflateError::InvalidSymbol)
    } else if id <= 255 {
        Ok(ComparedElement::new(DeflateElementType::JustElement(id as u8), id))
    } else if id == 256 {
        Ok(ComparedElement::new(DeflateElementType::EndBlock, id))
    } else if id <= 264 {
        Ok(ComparedElement::new(DeflateElementType::LengthMatch(id as u16), id))
    } else if id <= 268 {
        Ok(ComparedElement::new(DeflateElementType::LengthMatchWithAdd(id as u16, add), id))
    } else if id <= 272 {
        Ok(ComparedElement::new(DeflateElementType::LengthMatchWithBinAdd(id as u16, add), id))
    } else if id <= 276 {
        Ok(ComparedElement::new(DeflateElementType::LengthMatchWithThirdAdd(id as u16, add), id))
    } else if id <= 280 {
        Ok(ComparedElement::new(DeflateElementType::LengthMatchWithFourthAdd(id as u16, add), id))
    } else if id <= 284 {
        Ok(ComparedElement::new(DeflateElementType::LengthMatchWithFifthAdd(id as u16, add), id))
    } else {
        Ok(ComparedElement::new(DeflateElementType::MaxMatchLength, id))
    }
}

/// The match length that a length symbol and its extra value stand for.
pub fn get_deflate_copy_length(elem: &DeflateElementType) -> (length: u16)
    requires
        elem.is_length(),
        257 <= elem.symbol() <= 285,
        elem.well_formed(),
    ensures
        length == copy_length(elem.symbol(), elem.extra()),
{
    match elem {
        DeflateElementType::LengthMatch(l) => *l - 254,
        DeflateElementType::LengthMatchWithAdd(l, add) => (*l - 265) * 2 + 11 + *add as u16,
        DeflateElementType::LengthMatchWithBinAdd(l, add) => (*l - 269) * 4 + 19 + *add as u16,
        DeflateElementType::LengthMatchWithThirdAdd(l, add) => (*l - 273) * 8 + 35 + *add as u16,
        DeflateElementType::LengthMatchWithFourthAdd(l, add) => (*l - 277) * 16 + 67 + *add as u16,
        DeflateElementType::LengthMatchWithFifthAdd(l, add) => (*l - 281) * 32 + 131 + *add as u16,
        _ => MAX_COINCIDENCE_SIZE,
    }
}

} // verus!
