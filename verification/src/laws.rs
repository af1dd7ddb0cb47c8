//! The document-level laws: what parsing, decoding, serializing and editing
//! promise together, proved once over the contracts of the other modules.

use vstd::prelude::*;

use crate::model;
use crate::Properties;
use crate::PropertyType;
use crate::PropertyValue;

verus! {

/// Round-trip: a freshly parsed document serializes back to its source,
/// byte for byte, the empty source included.
pub proof fn lemma_round_trip(doc: Properties)
    requires
        model::is_parse_of(doc.src_view(), doc.forest()),
    ensures
        model::forest_ser(doc.src_view(), doc.forest()) == doc.src_view(),
{
    model::lemma_parse_ser(doc.src_view(), doc.forest());
}

/// Decode purity: decoding a node's logical value twice yields identical
/// results.
pub proof fn lemma_decode_purity(
    src: Seq<char>,
    n: PropertyValue,
    r1: Seq<char>,
    r2: Seq<char>,
)
    requires
        r1 == model::node_dec(src, n),
        r2 == model::node_dec(src, n),
    ensures
        r1 == r2,
{
}

/// Minimal-diff set: replacing the value child of one parsed property with
/// owned text changes only that property's value span of the serialized
/// text; every other byte of the source is reproduced unchanged.
pub proof fn lemma_set_minimal_diff(
    src: Seq<char>,
    vs: Seq<PropertyValue>,
    vs2: Seq<PropertyValue>,
    j: int,
    t: Seq<char>,
)
    requires
        model::is_parse_of(src, vs),
        0 <= j < vs.len(),
        vs[j].type_ == PropertyType::Property,
        vs2.len() == vs.len(),
        forall|m: int| 0 <= m < vs.len() && m != j ==> #[trigger] vs2[m] == vs[m],
        vs2[j].type_ == PropertyType::Property,
        vs2[j].children matches Some(cs2) && cs2@.len() == 3 && cs2@[0]
            == vs[j].children->Some_0@[0] && cs2@[1] == vs[j].children->Some_0@[1]
            && model::is_raw_text(cs2@[2], t),
    ensures
        ({
            let vch = vs[j].children->Some_0@[2];
            let a = vch.data->Range_0.start as int;
            let b = vch.data->Range_0.end as int;
            &&& 0 <= a <= b <= src.len()
            &&& model::forest_ser(src, vs2) == src.subrange(0, a) + t + src.subrange(
                b,
                src.len() as int,
            )
        }),
{
    let len = src.len() as int;
    let pj = model::node_pos(src, 0, 0, j);
    model::lemma_node_pos(src, vs, 0, 0, j);
    assert(model::forest_covers(src, vs, j, pj, len));
    assert(model::is_top_node(src, vs[j], pj));
    let ke = model::key_end(src, pj);
    let se = model::sep_end(src, ke);
    let ve = model::value_end(src, se);
    model::lemma_key_end_ge(src, pj);
    model::lemma_sep_end_from_ge(src, ke, false);
    model::lemma_value_end_ge(src, se);
    assert(model::is_property_node(src, vs[j], pj));
    let cs = vs[j].children->Some_0@;
    let cs2 = vs2[j].children->Some_0@;
    let vch = cs[2];
    assert(vch.data->Range_0.start == se);
    assert(vch.data->Range_0.end == ve);

    // the text after the property is reproduced from its own position on
    assert(model::top_node_end(src, pj) == ve);
    assert(model::forest_covers(src, vs, j + 1, ve, len));
    model::lemma_covers_ser(src, vs, j + 1, ve, len);
    model::lemma_ser_from_eq(src, vs, j + 1);

    // cut the edited forest into the part before, the node, and the part
    // after
    assert(vs2 =~= vs2.subrange(0, j) + seq![vs2[j]] + vs2.subrange(j + 1, vs2.len() as int));
    model::lemma_ser_concat(src, vs2.subrange(0, j) + seq![vs2[j]], vs2.subrange(
        j + 1,
        vs2.len() as int,
    ));
    model::lemma_ser_concat(src, vs2.subrange(0, j), seq![vs2[j]]);
    model::lemma_ser_single(src, vs2[j]);
    assert(vs2.subrange(0, j) =~= vs.subrange(0, j));
    assert(vs2.subrange(j + 1, vs2.len() as int) =~= vs.subrange(j + 1, vs.len() as int));

    // the edited node serializes as key slice, separator slice, new text
    model::lemma_children_ser3(src, cs2);
    assert(model::leaf_ser(src, cs2[0]) == src.subrange(pj, ke));
    assert(model::leaf_ser(src, cs2[1]) == src.subrange(ke, se));
    assert(model::leaf_ser(src, cs2[2]) == t);

    model::lemma_subrange_concat(src, 0, pj, ke);
    model::lemma_subrange_concat(src, 0, ke, se);
    assert(model::forest_ser(src, vs2) =~= src.subrange(0, se) + t + src.subrange(ve, len));
}

/// Append: setting an absent key appends at most a line feed and one raw
/// line; the serialized text starts with the old serialized text unchanged.
pub proof fn lemma_set_append(
    src: Seq<char>,
    vs: Seq<PropertyValue>,
    vs2: Seq<PropertyValue>,
    line: Seq<char>,
    with_nl: bool,
)
    requires
        vs2.len() == vs.len() + (if with_nl {
            2int
        } else {
            1int
        }),
        forall|m: int| 0 <= m < vs.len() ==> #[trigger] vs2[m] == vs[m],
        with_nl ==> model::is_raw_text(vs2[vs.len() as int], seq!['\n']),
        model::is_raw_text(vs2.last(), line),
    ensures
        model::forest_ser(src, vs2) == model::forest_ser(src, vs) + (if with_nl {
            seq!['\n']
        } else {
            Seq::<char>::empty()
        }) + line,
{
    if with_nl {
        let mid = vs2.drop_last();
        assert(mid.drop_last() =~= vs);
        assert(model::forest_ser(src, vs2) == model::forest_ser(src, mid) + model::node_ser(
            src,
            vs2.last(),
        ));
        assert(model::forest_ser(src, mid) == model::forest_ser(src, vs) + model::node_ser(
            src,
            mid.last(),
        ));
        assert(mid.last() == vs2[vs.len() as int]);
        assert(model::node_ser(src, mid.last()) == seq!['\n']);
        assert(model::node_ser(src, vs2.last()) == line);
        assert(model::forest_ser(src, vs) + seq!['\n'] + line =~= model::forest_ser(src, vs)
            + (seq!['\n'] + line));
    } else {
        assert(vs2.drop_last() =~= vs);
        assert(model::node_ser(src, vs2.last()) == line);
        assert(model::forest_ser(src, vs) + Seq::<char>::empty() =~= model::forest_ser(
            src,
            vs,
        ));
    }
}

/// Duplicate keys: what a parsed document binds to a key comes from the
/// last property whose key decodes to it — the looked-up index is that
/// property's, no later property holds the key, and the looked-up value is
/// that property's decoded value.
pub proof fn lemma_duplicate_keys_last(src: Seq<char>, vs: Seq<PropertyValue>, k: Seq<char>)
    requires
        model::props_idx_range(src, vs, 0, vs.len() as int, k) is Some,
    ensures
        ({
            let m = model::props_idx_range(src, vs, 0, vs.len() as int, k)->Some_0;
            &&& 0 <= m < vs.len()
            &&& vs[m].type_ == PropertyType::Property
            &&& model::prop_key_dec(src, vs[m]) == k
            &&& model::props_lookup_range(src, vs, 0, vs.len() as int, k) == Some(
                model::prop_val_dec(src, vs[m]),
            )
            &&& forall|b: int|
                m < b < vs.len() && (#[trigger] vs[b]).type_ == PropertyType::Property
                    ==> model::prop_key_dec(src, vs[b]) != k
        }),
{
    model::lemma_last_occurrence(src, vs, 0, vs.len() as int, k);
}

} // verus!
