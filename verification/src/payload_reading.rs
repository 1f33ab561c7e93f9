use vstd::prelude::*;
use crate::bin_num::fixed_bits;
use crate::canonical::{model_code, CodeModel};
use crate::decoder::{decode_payload, read_number, read_symbol};
use crate::error::DeflateError;
use crate::format::{code_word, concat_bits, element_bits};
use crate::lz77::{apply_element, lz77_expand, Lz77Element};
use crate::reading::{
    has_at, lemma_concat_bits_front, lemma_has_at_split, lemma_read_code_word, lemma_read_fixed,
};
use crate::symbols::{
    copy_length, distance_base, distance_extra, distance_extra_bits, distance_main,
    element_type_of, lemma_distance_inverse, lemma_length_inverse, length_extra, length_extra_bits,
    length_symbol,
};
use crate::tables::prefix_free;

verus! {

/// A reference reaches no further back than the output is long.
pub open spec fn reaches(out_len: int, element: Lz77Element) -> bool {
    match element {
        Lz77Element::SimpleValue(_) => true,
        Lz77Element::ReferenceValue(r) => r.offset <= out_len,
    }
}

/// Carried out in turn onto the output, no reference reaches back before the
/// start of the output.
pub open spec fn references_reach(out: Seq<u8>, elements: Seq<Lz77Element>) -> bool
    decreases elements.len(),
{
    if elements.len() == 0 {
        true
    } else {
        reaches(out.len() as int, elements[0]) && references_reach(
            apply_element(out, elements[0]),
            elements.drop_first(),
        )
    }
}

/// The literal/length code has a word for the element's symbol, and the
/// distance code one for the distance symbol of a reference.
pub open spec fn has_codes(lit_model: CodeModel, dist_model: CodeModel, element: Lz77Element) -> bool {
    &&& model_code(lit_model, element_type_of(element).symbol()) is Some
    &&& element matches Lz77Element::ReferenceValue(r) ==> model_code(
        dist_model,
        distance_main(r.offset as int),
    ) is Some
}

/// Reading one element that is written at `pos` carries the output on as the
/// element says.
pub proof fn lemma_read_element(
    lit_model: CodeModel,
    dist_model: CodeModel,
    bits: Seq<bool>,
    pos: int,
    element: Lz77Element,
    out: Seq<u8>,
)
    requires
        prefix_free(lit_model),
        prefix_free(dist_model),
        element.well_formed(),
        has_codes(lit_model, dist_model, element),
        has_at(bits, pos, element_bits(lit_model, dist_model)(element)),
        reaches(out.len() as int, element),
    ensures
        decode_payload(lit_model, dist_model, bits, pos, out) == decode_payload(
            lit_model,
            dist_model,
            bits,
            pos + element_bits(lit_model, dist_model)(element).len(),
            apply_element(out, element),
        ),
{
    match element {
        Lz77Element::SimpleValue(v) => {
            lemma_read_code_word(lit_model, bits, pos, v as int);
        },
        Lz77Element::ReferenceValue(r) => {
            let count = r.count as int;
            let offset = r.offset as int;
            lemma_length_inverse(count);
            lemma_distance_inverse(offset);
            let symbol = length_symbol(count);
            let width = length_extra_bits(symbol);
            let far = distance_main(offset);
            let far_width = distance_extra_bits(far);
            let word = code_word(lit_model, symbol);
            let extra = fixed_bits(length_extra(count) as nat, width as nat);
            let far_word = code_word(dist_model, far);
            let far_extra = fixed_bits(distance_extra(offset) as nat, far_width as nat);
            assert(element_type_of(element).symbol() == symbol);
            assert(element_bits(lit_model, dist_model)(element) == word + extra + far_word
                + far_extra);
            lemma_has_at_split(bits, pos, word + extra + far_word, far_extra);
            lemma_has_at_split(bits, pos, word + extra, far_word);
            lemma_has_at_split(bits, pos, word, extra);
            crate::bin_num::lemma_fixed_bits(length_extra(count) as nat, width as nat);
            crate::bin_num::lemma_fixed_bits(distance_extra(offset) as nat, far_width as nat);
            lemma_read_code_word(lit_model, bits, pos, symbol);
            let next = pos + word.len();
            lemma_read_fixed(bits, next, length_extra(count) as nat, width as nat);
            lemma_read_code_word(dist_model, bits, next + width, far);
            let after = next + width + far_word.len();
            lemma_read_fixed(bits, after, distance_extra(offset) as nat, far_width as nat);
            assert(read_symbol(lit_model, bits, pos) == Some((symbol, next)));
            assert(read_number(bits, next, width) == Some(length_extra(count)));
            assert(read_symbol(dist_model, bits, next + width) == Some((far, after)));
            assert(read_number(bits, after, far_width) == Some(distance_extra(offset)));
            assert(copy_length(symbol, length_extra(count)) == count);
            assert(distance_base(far) + distance_extra(offset) == offset);
        },
    }
}

/// Reading the elements of a block and its end-of-block symbol carries the
/// elements out and ends after that symbol.
pub proof fn lemma_read_payload(
    lit_model: CodeModel,
    dist_model: CodeModel,
    bits: Seq<bool>,
    pos: int,
    elements: Seq<Lz77Element>,
    out: Seq<u8>,
)
    requires
        prefix_free(lit_model),
        prefix_free(dist_model),
        forall|k: int| 0 <= k < elements.len() ==> (#[trigger] elements[k]).well_formed(),
        forall|k: int|
            0 <= k < elements.len() ==> has_codes(lit_model, dist_model, #[trigger] elements[k]),
        model_code(lit_model, 256) is Some,
        has_at(
            bits,
            pos,
            concat_bits(elements, element_bits(lit_model, dist_model)) + code_word(lit_model, 256),
        ),
        references_reach(out, elements),
    ensures
        decode_payload(lit_model, dist_model, bits, pos, out) == Ok::<(Seq<u8>, int), DeflateError>(
            (
                lz77_expand(out, elements),
                pos + concat_bits(elements, element_bits(lit_model, dist_model)).len() + code_word(
                    lit_model,
                    256,
                ).len(),
            ),
        ),
    decreases elements.len(),
{
    let bits_of = element_bits(lit_model, dist_model);
    let body = concat_bits(elements, bits_of);
    let end = code_word(lit_model, 256);
    lemma_has_at_split(bits, pos, body, end);
    if elements.len() == 0 {
        lemma_read_code_word(lit_model, bits, pos, 256);
    } else {
        let first = elements[0];
        let others = elements.drop_first();
        lemma_concat_bits_front(elements, bits_of);
        let head = bits_of(first);
        let tail = concat_bits(others, bits_of);
        lemma_has_at_split(bits, pos, head, tail);
        lemma_read_element(lit_model, dist_model, bits, pos, first, out);
        crate::reading::lemma_has_at_join(bits, pos + head.len(), tail, end);
        assert forall|k: int| 0 <= k < others.len() implies (#[trigger] others[k]).well_formed()
            && has_codes(lit_model, dist_model, others[k]) by {
            assert(others[k] == elements[k + 1]);
        }
        lemma_read_payload(
            lit_model,
            dist_model,
            bits,
            pos + head.len(),
            others,
            apply_element(out, first),
        );
    }
}

} // verus!
