//! The one-line summary of a render: how many shapes on how many layers
//! were drawn from which top cell, and where the output went.

use vstd::prelude::*;
use crate::gds::{Cell, Element};
use crate::svg::{drawn, keep, legend_layers, legend_layers_exec, shape_of};
use crate::text::{dec, push_dec, push_str, string_from_chars};

verus! {

/// How many elements are drawn under the layer filter.
pub open spec fn shape_count(es: Seq<Element>, layers: Option<&[i16]>) -> nat
    decreases es.len(),
{
    if es.len() == 0 {
        0
    } else {
        shape_count(es.drop_last(), layers) + if drawn(es.last(), layers) {
            1nat
        } else {
            0nat
        }
    }
}

/// `rendered top 'TOP': N shape(s) across L layer(s) -> SVG (DEST)`, with
/// `stdout` for no output path.
pub open spec fn summary_text(
    top: Seq<char>,
    es: Seq<Element>,
    layers: Option<&[i16]>,
    out: Option<Seq<char>>,
) -> Seq<char> {
    let dest = match out {
        Some(o) => o,
        None => "stdout"@,
    };
    "rendered top '"@ + top + "': "@ + dec(shape_count(es, layers)) + " shape(s) across "@ + dec(
        legend_layers(es, layers).len(),
    ) + " layer(s) -> SVG ("@ + dest + ")"@
}

/// The summary line of a render of `cell` from top cell `top`.
pub fn view_summary(top: &str, cell: &Cell, layers: Option<&[i16]>, out: Option<&str>) -> (msg:
    String)
    ensures
        msg@ == summary_text(
            top@,
            cell.elements@,
            layers,
            match out {
                Some(o) => Some(o@),
                None => None,
            },
        ),
{
    let es = &cell.elements;
    let mut n: usize = 0;
    let mut k: usize = 0;
    while k < es.len()
        invariant
            k <= es@.len(),
            n <= k,
            n == shape_count(es@.subrange(0, k as int), layers),
        decreases es@.len() - k,
    {
        let ghost sub1 = es@.subrange(0, k as int + 1);
        assert(sub1.drop_last() == es@.subrange(0, k as int));
        assert(sub1.last() == es@[k as int]);
        match shape_of(&es[k]) {
            Some((layer, _)) => {
                if keep(layer, layers) {
                    n = n + 1;
                }
            },
            None => {},
        }
        k = k + 1;
    }
    assert(es@.subrange(0, k as int) == es@);
    let ls = legend_layers_exec(es, layers);
    let mut m: Vec<char> = Vec::new();
    push_str(&mut m, "rendered top '");
    push_str(&mut m, top);
    push_str(&mut m, "': ");
    push_dec(&mut m, n as u128);
    push_str(&mut m, " shape(s) across ");
    push_dec(&mut m, ls.len() as u128);
    push_str(&mut m, " layer(s) -> SVG (");
    match out {
        Some(o) => push_str(&mut m, o),
        None => push_str(&mut m, "stdout"),
    }
    push_str(&mut m, ")");
    string_from_chars(&m)
}


/// What one more element adds to the shape count: a text label adds
/// nothing; a boundary, path or box adds one exactly when its layer is in
/// the filter (or there is no filter).
pub proof fn lemma_shape_count_push(es: Seq<Element>, e: Element, layers: Option<&[i16]>)
    ensures
        shape_count(es.push(e), layers) == shape_count(es, layers) + match e {
            Element::Text { .. } => 0nat,
            Element::Boundary { layer, .. } => listed(layer, layers),
            Element::Path { layer, .. } => listed(layer, layers),
            Element::Box { layer, .. } => listed(layer, layers),
        },
{
    assert(es.push(e).drop_last() =~= es);
}

/// 1 when `layer` passes the filter, else 0.
pub open spec fn listed(layer: i16, layers: Option<&[i16]>) -> nat {
    match layers {
        Some(ls) => if ls@.contains(layer) {
            1
        } else {
            0
        },
        None => 1,
    }
}

/// The shape count of two runs of elements is the sum of theirs.
pub proof fn lemma_shape_count_concat(a: Seq<Element>, b: Seq<Element>, layers: Option<&[i16]>)
    ensures
        shape_count(a + b, layers) == shape_count(a, layers) + shape_count(b, layers),
    decreases b.len(),
{
    if b.len() == 0 {
        assert(a + b =~= a);
    } else {
        lemma_shape_count_concat(a, b.drop_last(), layers);
        assert((a + b).drop_last() =~= a + b.drop_last());
        assert((a + b).last() == b.last());
    }
}

/// Text labels never count: a run of text elements has shape count 0, and
/// the count never exceeds the number of elements.
pub proof fn lemma_shape_count_bounds(es: Seq<Element>, layers: Option<&[i16]>)
    ensures
        shape_count(es, layers) <= es.len(),
        (forall|i: int| 0 <= i < es.len() ==> (#[trigger] es[i]) is Text) ==> shape_count(es, layers)
            == 0,
        layers is None ==> shape_count(es, layers) + count_texts(es) == es.len(),
    decreases es.len(),
{
    if es.len() > 0 {
        let p = es.drop_last();
        lemma_shape_count_bounds(p, layers);
        assert(forall|i: int| 0 <= i < p.len() ==> p[i] == es[i]);
    }
}

/// How many text elements a run holds.
pub open spec fn count_texts(es: Seq<Element>) -> nat
    decreases es.len(),
{
    if es.len() == 0 {
        0
    } else {
        count_texts(es.drop_last()) + if es.last() is Text {
            1nat
        } else {
            0nat
        }
    }
}

} // verus!
