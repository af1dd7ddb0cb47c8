//! The mathematical model: character classes, the grammar of the properties
//! dialect as functions from a source sequence and a position to the end of
//! each construct, the decoding of escapes and continuations, and the
//! serialization of a node forest.

use vstd::prelude::*;

use crate::PropertyData;
use crate::PropertyType;
use crate::PropertyValue;

verus! {

// ---------------------------------------------------------------------------
// Character classes
// ---------------------------------------------------------------------------

/// The Unicode white-space characters, as `char::is_whitespace` reports them.
pub open spec fn is_ws(c: char) -> bool {
    let v = c as u32;
    ||| v == 0x9
    ||| v == 0xA
    ||| v == 0xB
    ||| v == 0xC
    ||| v == 0xD
    ||| v == 0x20
    ||| v == 0x85
    ||| v == 0xA0
    ||| v == 0x1680
    ||| (0x2000 <= v && v <= 0x200A)
    ||| v == 0x2028
    ||| v == 0x2029
    ||| v == 0x202F
    ||| v == 0x205F
    ||| v == 0x3000
}

/// Line terminators.
pub open spec fn is_eol_char(c: char) -> bool {
    c == '\n' || c == '\r'
}

/// Characters that open a comment line.
pub open spec fn is_comment_char(c: char) -> bool {
    c == '#' || c == '!'
}

/// Characters that end a key and start its separator.
pub open spec fn starts_sep_char(c: char) -> bool {
    c == '=' || c == ':' || is_ws(c)
}

// ---------------------------------------------------------------------------
// The grammar: end positions of each construct
// ---------------------------------------------------------------------------

/// End of the maximal white-space run starting at `p`.
pub open spec fn ws_end(src: Seq<char>, p: int) -> int
    decreases src.len() - p,
{
    if 0 <= p < src.len() && is_ws(src[p]) {
        ws_end(src, p + 1)
    } else {
        p
    }
}

/// End of a comment starting at `p`: everything up to (not including) the
/// next line terminator, or the end of input.
pub open spec fn comment_end(src: Seq<char>, p: int) -> int
    decreases src.len() - p,
{
    if 0 <= p < src.len() && !is_eol_char(src[p]) {
        comment_end(src, p + 1)
    } else {
        p
    }
}

/// End of an escape starting at the backslash at `p`: two characters, or six
/// for a `\u` escape, clipped to the end of input.
pub open spec fn esc_end(src: Seq<char>, p: int) -> int {
    if p + 1 >= src.len() {
        p + 1
    } else if src[p + 1] == 'u' {
        if p + 6 <= src.len() {
            p + 6
        } else {
            src.len() as int
        }
    } else {
        p + 2
    }
}

/// End of the white-space run on a continuation line: stops at a line
/// terminator or at the first non-white-space character.
pub open spec fn cont_ws_end(src: Seq<char>, p: int) -> int
    decreases src.len() - p,
{
    if 0 <= p < src.len() && is_ws(src[p]) && !is_eol_char(src[p]) {
        cont_ws_end(src, p + 1)
    } else {
        p
    }
}

/// End of a line continuation starting at the backslash at `p`: the
/// backslash, the terminator — a line feed, a carriage return, or the two
/// as one — and the leading white-space run of the next line, nothing
/// else.
pub open spec fn lb_end(src: Seq<char>, p: int) -> int {
    let p1 = p + 1;
    let p2 = if p1 < src.len() && src[p1] == '\r' {
        if p1 + 1 < src.len() && src[p1 + 1] == '\n' {
            p1 + 2
        } else {
            p1 + 1
        }
    } else if p1 < src.len() {
        p1 + 1
    } else {
        p1
    };
    cont_ws_end(src, p2)
}

/// Whether the backslash at `p` starts a line continuation rather than a
/// character escape.
pub open spec fn starts_lb_at(src: Seq<char>, p: int) -> bool {
    p + 1 < src.len() && src[p] == '\\' && is_eol_char(src[p + 1])
}

/// End of a key starting at `p`: stops before the first separator-starting
/// character; a backslash is absorbed as an escape and scanning resumes
/// after it.
pub open spec fn key_end(src: Seq<char>, p: int) -> int
    decreases src.len() - p,
{
    if !(0 <= p < src.len()) || starts_sep_char(src[p]) {
        p
    } else if src[p] == '\\' {
        key_end(src, esc_end(src, p))
    } else {
        key_end(src, p + 1)
    }
}

/// The spans of the escapes inside a key starting at `p`, in order.
pub open spec fn key_children(src: Seq<char>, p: int) -> Seq<(int, int)>
    decreases src.len() - p,
{
    if !(0 <= p < src.len()) || starts_sep_char(src[p]) {
        Seq::empty()
    } else if src[p] == '\\' {
        seq![(p, esc_end(src, p))] + key_children(src, esc_end(src, p))
    } else {
        key_children(src, p + 1)
    }
}

/// End of a separator starting at `p`: white space, at most one `:` or `=`
/// (after which `after` holds), then white space, stopping at a line
/// terminator or other content.
pub open spec fn sep_end_from(src: Seq<char>, p: int, after: bool) -> int
    decreases src.len() - p,
{
    if !(0 <= p < src.len()) || is_eol_char(src[p]) {
        p
    } else if is_ws(src[p]) {
        sep_end_from(src, p + 1, after)
    } else if after {
        p
    } else if src[p] == ':' || src[p] == '=' {
        sep_end_from(src, p + 1, true)
    } else {
        p
    }
}

/// End of a separator starting at `p`.
pub open spec fn sep_end(src: Seq<char>, p: int) -> int {
    sep_end_from(src, p, false)
}

/// End of a value starting at `p`: stops before a line terminator; a
/// backslash is absorbed as a line continuation or an escape.
pub open spec fn value_end(src: Seq<char>, p: int) -> int
    decreases src.len() - p,
    via value_end_decreases
{
    if !(0 <= p < src.len()) {
        p
    } else if starts_lb_at(src, p) {
        value_end(src, lb_end(src, p))
    } else if src[p] == '\\' {
        value_end(src, esc_end(src, p))
    } else if is_eol_char(src[p]) {
        p
    } else {
        value_end(src, p + 1)
    }
}

#[via_fn]
proof fn value_end_decreases(src: Seq<char>, p: int) {
    if 0 <= p < src.len() && starts_lb_at(src, p) {
        lemma_cont_ws_end_ge(src, p + 1);
        lemma_cont_ws_end_ge(src, p + 2);
        lemma_cont_ws_end_ge(src, p + 3);
    }
}

/// The spans of the continuations and escapes inside a value starting at
/// `p`, in order, each marked `true` when it is a continuation.
pub open spec fn value_children(src: Seq<char>, p: int) -> Seq<(bool, int, int)>
    decreases src.len() - p,
    via value_children_decreases
{
    if !(0 <= p < src.len()) {
        Seq::empty()
    } else if starts_lb_at(src, p) {
        seq![(true, p, lb_end(src, p))] + value_children(src, lb_end(src, p))
    } else if src[p] == '\\' {
        seq![(false, p, esc_end(src, p))] + value_children(src, esc_end(src, p))
    } else if is_eol_char(src[p]) {
        Seq::empty()
    } else {
        value_children(src, p + 1)
    }
}

#[via_fn]
proof fn value_children_decreases(src: Seq<char>, p: int) {
    if 0 <= p < src.len() && starts_lb_at(src, p) {
        lemma_cont_ws_end_ge(src, p + 1);
        lemma_cont_ws_end_ge(src, p + 2);
        lemma_cont_ws_end_ge(src, p + 3);
    }
}

/// The white-space run of a continuation line does not move backwards and
/// stays within the source.
pub proof fn lemma_cont_ws_end_ge(src: Seq<char>, p: int)
    ensures
        cont_ws_end(src, p) >= p,
        p <= src.len() ==> cont_ws_end(src, p) <= src.len(),
    decreases src.len() - p,
{
    if 0 <= p < src.len() && is_ws(src[p]) && !is_eol_char(src[p]) {
        lemma_cont_ws_end_ge(src, p + 1);
    }
}

// ---------------------------------------------------------------------------
// Shapes of parsed nodes
// ---------------------------------------------------------------------------

/// A childless node backed by the span `[lo, hi)`.
pub open spec fn is_span_leaf(n: PropertyValue, kind: PropertyType, lo: int, hi: int) -> bool {
    &&& n.type_ == kind
    &&& n.children is None
    &&& n.data matches PropertyData::Range(r) && r.start == lo && r.end == hi
}

/// The spans of a sequence of span-backed nodes.
pub open spec fn child_spans(cs: Seq<PropertyValue>) -> Seq<(int, int)> {
    cs.map_values(
        |c: PropertyValue| (c.data->Range_0.start as int, c.data->Range_0.end as int),
    )
}

/// The spans of a sequence of span-backed nodes, each marked `true` when the
/// node is a line continuation.
pub open spec fn marked_child_spans(cs: Seq<PropertyValue>) -> Seq<(bool, int, int)> {
    cs.map_values(
        |c: PropertyValue| (
            c.type_ == PropertyType::LineBreak,
            c.data->Range_0.start as int,
            c.data->Range_0.end as int,
        ),
    )
}

/// A key node parsed at `p`: its span and its escape children follow the
/// grammar.
pub open spec fn is_key_node(src: Seq<char>, n: PropertyValue, p: int) -> bool {
    &&& n.type_ == PropertyType::Key
    &&& n.data matches PropertyData::Range(r) && r.start == p && r.end == key_end(src, p)
    &&& n.children matches Some(cs) && {
        let spans = key_children(src, p);
        &&& cs@.len() == spans.len()
        &&& forall|j: int|
            0 <= j < spans.len() ==> is_span_leaf(
                #[trigger] cs@[j],
                PropertyType::EscapedValue,
                spans[j].0,
                spans[j].1,
            )
    }
}

/// A separator node parsed at `p`.
pub open spec fn is_sep_node(src: Seq<char>, n: PropertyValue, p: int) -> bool {
    is_span_leaf(n, PropertyType::Separator, p, sep_end(src, p))
}

/// A value node parsed at `p`: its span and its continuation and escape
/// children follow the grammar.
pub open spec fn is_value_node(src: Seq<char>, n: PropertyValue, p: int) -> bool {
    &&& n.type_ == PropertyType::Value
    &&& n.data matches PropertyData::Range(r) && r.start == p && r.end == value_end(src, p)
    &&& n.children matches Some(cs) && {
        let spans = value_children(src, p);
        &&& cs@.len() == spans.len()
        &&& forall|j: int|
            0 <= j < spans.len() ==> is_span_leaf(
                #[trigger] cs@[j],
                (if spans[j].0 {
                    PropertyType::LineBreak
                } else {
                    PropertyType::EscapedValue
                }),
                spans[j].1,
                spans[j].2,
            )
    }
}

/// End of the property starting at `p`: key, separator, value in order.
pub open spec fn property_end(src: Seq<char>, p: int) -> int {
    value_end(src, sep_end(src, key_end(src, p)))
}

/// A property node parsed at `p`: exactly three children — key, separator,
/// value — whose spans sit end to end across the property's span.
pub open spec fn is_property_node(src: Seq<char>, n: PropertyValue, p: int) -> bool {
    &&& n.type_ == PropertyType::Property
    &&& n.data matches PropertyData::Range(r) && r.start == p && r.end == property_end(src, p)
    &&& n.children matches Some(cs) && {
        &&& cs@.len() == 3
        &&& is_key_node(src, cs@[0], p)
        &&& is_sep_node(src, cs@[1], key_end(src, p))
        &&& is_value_node(src, cs@[2], sep_end(src, key_end(src, p)))
    }
}

/// The node parsed at position `p` of the top-level loop, and where it ends:
/// white space, a comment, or a property, by the first character.
pub open spec fn is_top_node(src: Seq<char>, n: PropertyValue, p: int) -> bool {
    &&& 0 <= p < src.len()
    &&& if is_ws(src[p]) {
        is_span_leaf(n, PropertyType::Whitespace, p, ws_end(src, p))
    } else if is_comment_char(src[p]) {
        is_span_leaf(n, PropertyType::Comment, p, comment_end(src, p))
    } else {
        is_property_node(src, n, p)
    }
}

/// Where the top-level node parsed at `p` ends.
pub open spec fn top_node_end(src: Seq<char>, p: int) -> int {
    if 0 <= p < src.len() {
        if is_ws(src[p]) {
            ws_end(src, p)
        } else if is_comment_char(src[p]) {
            comment_end(src, p)
        } else {
            property_end(src, p)
        }
    } else {
        p
    }
}

/// The nodes `vs[i..]` are exactly the parse of `src` from position `p` up
/// to position `q`, sitting end to end.
pub open spec fn forest_covers(src: Seq<char>, vs: Seq<PropertyValue>, i: int, p: int, q: int) -> bool
    decreases vs.len() - i,
{
    if i == vs.len() {
        p == q
    } else if 0 <= i < vs.len() {
        &&& is_top_node(src, vs[i], p)
        &&& forest_covers(src, vs, i + 1, top_node_end(src, p), q)
    } else {
        false
    }
}

/// The forest `vs` is exactly the parse of the whole of `src`.
pub open spec fn is_parse_of(src: Seq<char>, vs: Seq<PropertyValue>) -> bool {
    forest_covers(src, vs, 0, 0, src.len() as int)
}

// ---------------------------------------------------------------------------
// Structural well-formedness of stored nodes
// ---------------------------------------------------------------------------

/// A node that serializes as a leaf is sound: its span lies within the
/// source and owned text appears only on `Raw` nodes.
pub open spec fn leaf_wf(n: PropertyValue, len: int) -> bool {
    &&& (n.data matches PropertyData::Range(r) ==> r.start <= r.end <= len)
    &&& (n.type_ == PropertyType::Raw ==> n.data is Text)
}

/// A stored node is sound: a property holds exactly three leaf children.
pub open spec fn node_wf(n: PropertyValue, len: int) -> bool {
    &&& leaf_wf(n, len)
    &&& (n.type_ == PropertyType::Property ==> (n.children matches Some(cs) && cs@.len() == 3
        && (forall|j: int|
        0 <= j < 3 ==> leaf_wf(#[trigger] cs@[j], len) && cs@[j].type_
            != PropertyType::Property)))
}

/// A `Raw` node holding exactly the text `t`.
pub open spec fn is_raw_text(n: PropertyValue, t: Seq<char>) -> bool {
    &&& n.type_ == PropertyType::Raw
    &&& n.children is None
    &&& n.data matches PropertyData::Text(s) && s@ == t
}

/// A node after which a new entry would already start its own line: a line
/// continuation, or owned text that is nothing but white space with a line
/// feed in it.
pub open spec fn is_newline_node(n: PropertyValue) -> bool {
    ||| n.type_ == PropertyType::LineBreak
    ||| (n.type_ == PropertyType::Raw && (n.data matches PropertyData::Text(s) && (forall|
        i: int,
    |
        0 <= i < s@.len() ==> is_ws(#[trigger] s@[i])) && (exists|i: int|
        0 <= i < s@.len() && s@[i] == '\n')))
}

/// Whether a leaf's contributed text ends with a line terminator.
pub open spec fn leaf_ends_line(src: Seq<char>, n: PropertyValue) -> bool {
    match n.data {
        PropertyData::Text(s) => n.type_ == PropertyType::Raw && s@.len() > 0 && is_eol_char(
            s@.last(),
        ),
        PropertyData::Range(r) => n.type_ != PropertyType::Raw && r.start < r.end
            && r.end <= src.len() && is_eol_char(src[r.end - 1]),
    }
}

/// Whether a node's contributed text ends with a line terminator: a
/// property ends as its value child does.
pub open spec fn node_ends_line(src: Seq<char>, n: PropertyValue) -> bool {
    if n.type_ == PropertyType::Property {
        match n.children {
            Some(cs) => cs@.len() == 3 && leaf_ends_line(src, cs@[2]),
            None => false,
        }
    } else {
        leaf_ends_line(src, n)
    }
}

/// A freshly parsed top-level node is structurally sound.
pub proof fn lemma_top_node_wf(src: Seq<char>, n: PropertyValue, p: int)
    requires
        is_top_node(src, n, p),
    ensures
        node_wf(n, src.len() as int),
{
    if is_ws(src[p]) {
        lemma_ws_end_ge(src, p);
    } else if is_comment_char(src[p]) {
        lemma_comment_end_ge(src, p);
    } else {
        lemma_key_end_ge(src, p);
        lemma_sep_end_from_ge(src, key_end(src, p), false);
        lemma_value_end_ge(src, sep_end(src, key_end(src, p)));
        lemma_property_end_ge(src, p);
    }
}

/// Extending a covering forest by the node parsed at its end position.
pub proof fn lemma_covers_push(
    src: Seq<char>,
    vs: Seq<PropertyValue>,
    i: int,
    p: int,
    q: int,
    n: PropertyValue,
)
    requires
        forest_covers(src, vs, i, p, q),
        0 <= i <= vs.len(),
        is_top_node(src, n, q),
    ensures
        forest_covers(src, vs.push(n), i, p, top_node_end(src, q)),
    decreases vs.len() - i,
{
    if i == vs.len() {
        assert(vs.push(n)[i] == n);
        assert(forest_covers(src, vs.push(n), i + 1, top_node_end(src, q), top_node_end(src, q)));
    } else {
        assert(vs.push(n)[i] == vs[i]);
        lemma_covers_push(src, vs, i + 1, top_node_end(src, p), q, n);
    }
}

/// A forest of one node serializes to that node's text.
pub proof fn lemma_ser_single(src: Seq<char>, n: PropertyValue)
    ensures
        forest_ser(src, seq![n]) == node_ser(src, n),
{
    assert(seq![n].drop_last() =~= Seq::<PropertyValue>::empty());
    assert(forest_ser(src, Seq::<PropertyValue>::empty()) == Seq::<char>::empty());
    assert(forest_ser(src, seq![n]) == forest_ser(src, seq![n].drop_last()) + node_ser(
        src,
        seq![n].last(),
    ));
    assert(forest_ser(src, seq![n]) =~= node_ser(src, n));
}

/// The serialization of a three-child property node, child by child.
pub proof fn lemma_children_ser3(src: Seq<char>, cs: Seq<PropertyValue>)
    requires
        cs.len() == 3,
    ensures
        children_ser(src, cs) == leaf_ser(src, cs[0]) + leaf_ser(src, cs[1]) + leaf_ser(
            src,
            cs[2],
        ),
{
    assert(cs.drop_last().drop_last() =~= seq![cs[0]]);
    assert(seq![cs[0]].drop_last() =~= Seq::<PropertyValue>::empty());
    assert(children_ser(src, Seq::<PropertyValue>::empty()) == Seq::<char>::empty());
    assert(children_ser(src, seq![cs[0]]) == children_ser(src, seq![cs[0]].drop_last())
        + leaf_ser(src, seq![cs[0]].last()));
    assert(cs.drop_last().last() == cs[1]);
    assert(cs.drop_last().len() == 2);
    assert(children_ser(src, cs.drop_last()) == children_ser(src, cs.drop_last().drop_last())
        + leaf_ser(src, cs[1]));
    assert(children_ser(src, seq![cs[0]]) =~= leaf_ser(src, cs[0]));
    assert(children_ser(src, cs) == children_ser(src, cs.drop_last()) + leaf_ser(src, cs[2]));
}

/// The start position of node `j` in a forest that covers the source from
/// node `i` at position `p` on.
pub open spec fn node_pos(src: Seq<char>, i: int, p: int, j: int) -> int
    decreases j - i,
{
    if j <= i {
        p
    } else {
        node_pos(src, i + 1, top_node_end(src, p), j)
    }
}

/// In a covering forest, the nodes before `j` serialize to the source up
/// to node `j`'s start position, and the rest still covers the rest.
pub proof fn lemma_node_pos(
    src: Seq<char>,
    vs: Seq<PropertyValue>,
    i: int,
    p: int,
    j: int,
)
    requires
        forest_covers(src, vs, i, p, src.len() as int),
        0 <= i <= j <= vs.len(),
        0 <= p <= src.len(),
    ensures
        p <= node_pos(src, i, p, j) <= src.len(),
        forest_covers(src, vs, j, node_pos(src, i, p, j), src.len() as int),
        forest_ser(src, vs.subrange(i, j)) == src.subrange(p, node_pos(src, i, p, j)),
    decreases j - i,
{
    if j == i {
        assert(vs.subrange(i, j) =~= Seq::<PropertyValue>::empty());
        assert(src.subrange(p, p) =~= Seq::<char>::empty());
    } else {
        let e = top_node_end(src, p);
        lemma_top_node_end_bounds(src, p);
        lemma_node_pos(src, vs, i + 1, e, j);
        assert(vs.subrange(i, j) =~= seq![vs[i]] + vs.subrange(i + 1, j));
        lemma_ser_concat(src, seq![vs[i]], vs.subrange(i + 1, j));
        assert(seq![vs[i]].drop_last() =~= Seq::<PropertyValue>::empty());
        assert(forest_ser(src, Seq::<PropertyValue>::empty()) == Seq::<char>::empty());
        assert(forest_ser(src, seq![vs[i]]) == forest_ser(src, seq![vs[i]].drop_last())
            + node_ser(src, seq![vs[i]].last()));
        assert(forest_ser(src, seq![vs[i]]) =~= node_ser(src, vs[i]));
        lemma_top_node_ser(src, vs[i], p);
        lemma_subrange_concat(src, p, e, node_pos(src, i + 1, e, j));
        assert(node_pos(src, i, p, j) == node_pos(src, i + 1, e, j));
    }
}

/// A forest lookup and a forest index lookup find a key together.
pub proof fn lemma_lookup_idx_same(
    src: Seq<char>,
    vs: Seq<PropertyValue>,
    i: int,
    j: int,
    k: Seq<char>,
)
    ensures
        props_lookup_range(src, vs, i, j, k) is Some <==> props_idx_range(src, vs, i, j, k)
            is Some,
    decreases j - i,
{
    if 0 <= i < j <= vs.len() {
        lemma_lookup_idx_same(src, vs, i, j - 1, k);
    }
}

/// The index a forest index lookup finds is the last property with that
/// key, and the forest lookup finds that property's value.
pub proof fn lemma_last_occurrence(
    src: Seq<char>,
    vs: Seq<PropertyValue>,
    i: int,
    j: int,
    k: Seq<char>,
)
    requires
        0 <= i <= j <= vs.len(),
        props_idx_range(src, vs, i, j, k) is Some,
    ensures
        ({
            let m = props_idx_range(src, vs, i, j, k)->Some_0;
            &&& i <= m < j
            &&& vs[m].type_ == PropertyType::Property
            &&& prop_key_dec(src, vs[m]) == k
            &&& props_lookup_range(src, vs, i, j, k) == Some(prop_val_dec(src, vs[m]))
            &&& forall|b: int|
                m < b < j && (#[trigger] vs[b]).type_ == PropertyType::Property
                    ==> prop_key_dec(src, vs[b]) != k
        }),
    decreases j - i,
{
    let n = vs[j - 1];
    if n.type_ == PropertyType::Property && prop_key_dec(src, n) == k {
    } else {
        lemma_last_occurrence(src, vs, i, j - 1, k);
    }
}

// ---------------------------------------------------------------------------
// Bounds of the grammar functions
// ---------------------------------------------------------------------------

/// A white-space run does not move backwards and stays within the source.
pub proof fn lemma_ws_end_ge(src: Seq<char>, p: int)
    ensures
        ws_end(src, p) >= p,
        p <= src.len() ==> ws_end(src, p) <= src.len(),
    decreases src.len() - p,
{
    if 0 <= p < src.len() && is_ws(src[p]) {
        lemma_ws_end_ge(src, p + 1);
    }
}

/// A comment does not move backwards and stays within the source.
pub proof fn lemma_comment_end_ge(src: Seq<char>, p: int)
    ensures
        comment_end(src, p) >= p,
        p <= src.len() ==> comment_end(src, p) <= src.len(),
    decreases src.len() - p,
{
    if 0 <= p < src.len() && !is_eol_char(src[p]) {
        lemma_comment_end_ge(src, p + 1);
    }
}

/// A line continuation consumes at least the backslash and stays within the
/// source.
pub proof fn lemma_lb_end_bounds(src: Seq<char>, p: int)
    requires
        0 <= p < src.len(),
        starts_lb_at(src, p),
    ensures
        p < lb_end(src, p) <= src.len(),
{
    lemma_cont_ws_end_ge(src, p + 1);
    lemma_cont_ws_end_ge(src, p + 2);
    lemma_cont_ws_end_ge(src, p + 3);
}

/// A key does not move backwards and stays within the source.
pub proof fn lemma_key_end_ge(src: Seq<char>, p: int)
    ensures
        key_end(src, p) >= p,
        p <= src.len() ==> key_end(src, p) <= src.len(),
    decreases src.len() - p,
{
    if 0 <= p < src.len() && !starts_sep_char(src[p]) {
        if src[p] == '\\' {
            lemma_key_end_ge(src, esc_end(src, p));
        } else {
            lemma_key_end_ge(src, p + 1);
        }
    }
}

/// A separator does not move backwards and stays within the source.
pub proof fn lemma_sep_end_from_ge(src: Seq<char>, p: int, after: bool)
    ensures
        sep_end_from(src, p, after) >= p,
        p <= src.len() ==> sep_end_from(src, p, after) <= src.len(),
    decreases src.len() - p,
{
    if 0 <= p < src.len() && !is_eol_char(src[p]) {
        if is_ws(src[p]) {
            lemma_sep_end_from_ge(src, p + 1, after);
        } else if !after && (src[p] == ':' || src[p] == '=') {
            lemma_sep_end_from_ge(src, p + 1, true);
        }
    }
}

/// A value does not move backwards and stays within the source.
pub proof fn lemma_value_end_ge(src: Seq<char>, p: int)
    ensures
        value_end(src, p) >= p,
        p <= src.len() ==> value_end(src, p) <= src.len(),
    decreases src.len() - p,
{
    if 0 <= p < src.len() {
        if starts_lb_at(src, p) {
            lemma_lb_end_bounds(src, p);
            lemma_value_end_ge(src, lb_end(src, p));
        } else if src[p] == '\\' {
            lemma_value_end_ge(src, esc_end(src, p));
        } else if !is_eol_char(src[p]) {
            lemma_value_end_ge(src, p + 1);
        }
    }
}

/// A property does not move backwards and stays within the source.
pub proof fn lemma_property_end_ge(src: Seq<char>, p: int)
    requires
        0 <= p <= src.len(),
    ensures
        p <= property_end(src, p) <= src.len(),
{
    lemma_key_end_ge(src, p);
    lemma_sep_end_from_ge(src, key_end(src, p), false);
    lemma_value_end_ge(src, sep_end(src, key_end(src, p)));
}

// ---------------------------------------------------------------------------
// Decoding
// ---------------------------------------------------------------------------

/// Whether a character is a hexadecimal digit.
pub open spec fn is_hex(c: char) -> bool {
    let v = c as u32;
    (0x30 <= v && v <= 0x39) || (0x61 <= v && v <= 0x66) || (0x41 <= v && v <= 0x46)
}

/// The value of a hexadecimal digit.
pub open spec fn hex_val(c: char) -> u32 {
    let v = c as u32;
    if 0x30 <= v && v <= 0x39 {
        (v - 0x30) as u32
    } else if 0x61 <= v && v <= 0x66 {
        (v - 0x57) as u32
    } else if 0x41 <= v && v <= 0x46 {
        (v - 0x37) as u32
    } else {
        0
    }
}

/// The code point of a `\u` escape whose backslash stands at `p`: the value
/// of the four digits after `\u`, or zero when they are not four
/// hexadecimal digits.
pub open spec fn u_code(src: Seq<char>, p: int) -> u32 {
    if p + 6 <= src.len() && is_hex(src[p + 2]) && is_hex(src[p + 3]) && is_hex(src[p + 4])
        && is_hex(src[p + 5]) {
        (hex_val(src[p + 2]) * 0x1000 + hex_val(src[p + 3]) * 0x100 + hex_val(src[p + 4]) * 0x10
            + hex_val(src[p + 5])) as u32
    } else {
        0
    }
}

/// The characters an escape starting at `p` decodes to: one character, or
/// none for a truncated trailing escape.  A `\u` escape with an invalid
/// code point decodes to code point zero; a surrogate decodes to the
/// replacement character.
pub open spec fn esc_dec(src: Seq<char>, p: int) -> Seq<char> {
    let e = esc_end(src, p);
    if e - p < 2 {
        Seq::empty()
    } else {
        let c1 = src[p + 1];
        if c1 == 't' {
            seq!['\t']
        } else if c1 == 'r' {
            seq!['\r']
        } else if c1 == 'n' {
            seq!['\n']
        } else if c1 == 'f' {
            seq!['\u{c}']
        } else if c1 == 'u' {
            let code = u_code(src, p);
            if 0xD800 <= code && code < 0xE000 {
                seq!['\u{FFFD}']
            } else {
                seq![code as char]
            }
        } else {
            seq![c1]
        }
    }
}

/// The logical string of a key span `[p, e)`: characters literally, with
/// each backslash resolved as an escape.
pub open spec fn key_span_dec(src: Seq<char>, p: int, e: int) -> Seq<char>
    decreases e - p,
{
    if !(0 <= p < e && e <= src.len()) {
        Seq::empty()
    } else if src[p] == '\\' {
        let q = if esc_end(src, p) < e {
            esc_end(src, p)
        } else {
            e
        };
        esc_dec(src, p) + key_span_dec(src, q, e)
    } else {
        seq![src[p]] + key_span_dec(src, p + 1, e)
    }
}

/// The logical string of a value span `[p, e)`: characters literally, with
/// line continuations contributing nothing and each other backslash
/// resolved as an escape.
pub open spec fn value_span_dec(src: Seq<char>, p: int, e: int) -> Seq<char>
    decreases e - p,
    via value_span_dec_decreases
{
    if !(0 <= p < e && e <= src.len()) {
        Seq::empty()
    } else if starts_lb_at(src, p) {
        let q = if lb_end(src, p) < e {
            lb_end(src, p)
        } else {
            e
        };
        value_span_dec(src, q, e)
    } else if src[p] == '\\' {
        let q = if esc_end(src, p) < e {
            esc_end(src, p)
        } else {
            e
        };
        esc_dec(src, p) + value_span_dec(src, q, e)
    } else {
        seq![src[p]] + value_span_dec(src, p + 1, e)
    }
}

#[via_fn]
proof fn value_span_dec_decreases(src: Seq<char>, p: int, e: int) {
    if 0 <= p < e && e <= src.len() && starts_lb_at(src, p) {
        lemma_lb_end_bounds(src, p);
    }
}

/// The logical string of a node: keys and values resolve their escapes,
/// owned text decodes to nothing, any other span-backed node is its slice.
pub open spec fn node_dec(src: Seq<char>, n: PropertyValue) -> Seq<char> {
    match n.data {
        PropertyData::Text(_) => Seq::empty(),
        PropertyData::Range(r) => if n.type_ == PropertyType::Key {
            key_span_dec(src, r.start as int, r.end as int)
        } else if n.type_ == PropertyType::Value {
            value_span_dec(src, r.start as int, r.end as int)
        } else {
            src.subrange(r.start as int, r.end as int)
        },
    }
}

/// The decoded key of a property node.
pub open spec fn prop_key_dec(src: Seq<char>, n: PropertyValue) -> Seq<char> {
    node_dec(src, n.children->Some_0@[0])
}

/// The decoded value of a property node.
pub open spec fn prop_val_dec(src: Seq<char>, n: PropertyValue) -> Seq<char> {
    node_dec(src, n.children->Some_0@[2])
}

// ---------------------------------------------------------------------------
// Looking a key up, in the source and in a forest
// ---------------------------------------------------------------------------

/// The value the source text itself binds to a key from position `p` on,
/// with a later binding winning over an earlier one.
pub open spec fn entries_lookup(src: Seq<char>, p: int, k: Seq<char>) -> Option<Seq<char>>
    decreases src.len() - p,
    via entries_lookup_decreases
{
    if !(0 <= p < src.len()) {
        None
    } else if is_ws(src[p]) {
        entries_lookup(src, ws_end(src, p), k)
    } else if is_comment_char(src[p]) {
        entries_lookup(src, comment_end(src, p), k)
    } else {
        let ke = key_end(src, p);
        let se = sep_end(src, ke);
        let ve = value_end(src, se);
        let later = entries_lookup(src, ve, k);
        if later is Some {
            later
        } else if key_span_dec(src, p, ke) == k {
            Some(value_span_dec(src, se, ve))
        } else {
            None
        }
    }
}

#[via_fn]
proof fn entries_lookup_decreases(src: Seq<char>, p: int, k: Seq<char>) {
    if 0 <= p < src.len() {
        lemma_top_node_end_bounds(src, p);
    }
}

/// The value the forest nodes `[i, j)` bind to a key, with a later
/// property winning over an earlier one.
pub open spec fn props_lookup_range(
    src: Seq<char>,
    vs: Seq<PropertyValue>,
    i: int,
    j: int,
    k: Seq<char>,
) -> Option<Seq<char>>
    decreases j - i,
{
    if 0 <= i < j <= vs.len() {
        let n = vs[j - 1];
        if n.type_ == PropertyType::Property && prop_key_dec(src, n) == k {
            Some(prop_val_dec(src, n))
        } else {
            props_lookup_range(src, vs, i, j - 1, k)
        }
    } else {
        None
    }
}

/// The index of the last property among the forest nodes `[i, j)` whose
/// key decodes to `k`.
pub open spec fn props_idx_range(
    src: Seq<char>,
    vs: Seq<PropertyValue>,
    i: int,
    j: int,
    k: Seq<char>,
) -> Option<int>
    decreases j - i,
{
    if 0 <= i < j <= vs.len() {
        let n = vs[j - 1];
        if n.type_ == PropertyType::Property && prop_key_dec(src, n) == k {
            Some(j - 1)
        } else {
            props_idx_range(src, vs, i, j - 1, k)
        }
    } else {
        None
    }
}

/// Unfolding a forest lookup from the front instead of the back.
pub proof fn lemma_lookup_range_front(
    src: Seq<char>,
    vs: Seq<PropertyValue>,
    i: int,
    j: int,
    k: Seq<char>,
)
    requires
        0 <= i < j <= vs.len(),
    ensures
        props_lookup_range(src, vs, i, j, k) == {
            let later = props_lookup_range(src, vs, i + 1, j, k);
            if later is Some {
                later
            } else if vs[i].type_ == PropertyType::Property && prop_key_dec(src, vs[i]) == k {
                Some(prop_val_dec(src, vs[i]))
            } else {
                None
            }
        },
    decreases j - i,
{
    if j - 1 > i {
        lemma_lookup_range_front(src, vs, i, j - 1, k);
        let n = vs[j - 1];
        if n.type_ == PropertyType::Property && prop_key_dec(src, n) == k {
            assert(props_lookup_range(src, vs, i, j, k) == Some(prop_val_dec(src, n)));
            assert(props_lookup_range(src, vs, i + 1, j, k) == Some(prop_val_dec(src, n)));
        } else {
            assert(props_lookup_range(src, vs, i, j, k) == props_lookup_range(
                src,
                vs,
                i,
                j - 1,
                k,
            ));
            assert(props_lookup_range(src, vs, i + 1, j, k) == props_lookup_range(
                src,
                vs,
                i + 1,
                j - 1,
                k,
            ));
        }
    } else {
        assert(props_lookup_range(src, vs, i + 1, j, k) is None);
    }
}

/// A forest that covers `[p, len)` of the source binds, from node `i` on,
/// exactly what the source text binds from position `p` on.
pub proof fn lemma_covers_lookup(
    src: Seq<char>,
    vs: Seq<PropertyValue>,
    i: int,
    p: int,
    k: Seq<char>,
)
    requires
        forest_covers(src, vs, i, p, src.len() as int),
        0 <= i <= vs.len(),
        0 <= p <= src.len(),
    ensures
        props_lookup_range(src, vs, i, vs.len() as int, k) == entries_lookup(src, p, k),
    decreases vs.len() - i,
{
    if i == vs.len() {
        assert(p == src.len());
    } else {
        let e = top_node_end(src, p);
        lemma_top_node_end_bounds(src, p);
        lemma_covers_lookup(src, vs, i + 1, e, k);
        lemma_lookup_range_front(src, vs, i, vs.len() as int, k);
        if !is_ws(src[p]) && !is_comment_char(src[p]) {
            let n = vs[i];
            let ke = key_end(src, p);
            let se = sep_end(src, ke);
            assert(prop_key_dec(src, n) == key_span_dec(src, p, ke));
            assert(prop_val_dec(src, n) == value_span_dec(src, se, value_end(src, se)));
        }
    }
}

// ---------------------------------------------------------------------------
// Serialization
// ---------------------------------------------------------------------------

/// The text a childless node contributes: owned text for `Raw` nodes, the
/// recorded source span for span-backed nodes.
pub open spec fn leaf_ser(src: Seq<char>, n: PropertyValue) -> Seq<char> {
    match n.data {
        PropertyData::Text(t) => if n.type_ == PropertyType::Raw {
            t@
        } else {
            Seq::empty()
        },
        PropertyData::Range(r) => if n.type_ == PropertyType::Raw {
            Seq::empty()
        } else {
            src.subrange(r.start as int, r.end as int)
        },
    }
}

/// The text a child sequence contributes, in order.
pub open spec fn children_ser(src: Seq<char>, cs: Seq<PropertyValue>) -> Seq<char>
    decreases cs.len(),
{
    if cs.len() == 0 {
        Seq::empty()
    } else {
        children_ser(src, cs.drop_last()) + leaf_ser(src, cs.last())
    }
}

/// The text a top-level node contributes: a property recurses into its
/// children, every other node is a leaf.
pub open spec fn node_ser(src: Seq<char>, n: PropertyValue) -> Seq<char> {
    if n.type_ == PropertyType::Property {
        match n.children {
            Some(cs) => children_ser(src, cs@),
            None => Seq::empty(),
        }
    } else {
        leaf_ser(src, n)
    }
}

/// The serialization of a forest: the concatenation of its nodes' text.
pub open spec fn forest_ser(src: Seq<char>, vs: Seq<PropertyValue>) -> Seq<char>
    decreases vs.len(),
{
    if vs.len() == 0 {
        Seq::empty()
    } else {
        forest_ser(src, vs.drop_last()) + node_ser(src, vs.last())
    }
}

/// The serialization of the forest from node `i` on.
pub open spec fn ser_from(src: Seq<char>, vs: Seq<PropertyValue>, i: int) -> Seq<char>
    decreases vs.len() - i,
{
    if 0 <= i < vs.len() {
        node_ser(src, vs[i]) + ser_from(src, vs, i + 1)
    } else {
        Seq::empty()
    }
}

/// Concatenating adjacent subranges yields the enclosing subrange.
pub proof fn lemma_subrange_concat(s: Seq<char>, a: int, b: int, c: int)
    requires
        0 <= a <= b <= c <= s.len(),
    ensures
        s.subrange(a, c) == s.subrange(a, b) + s.subrange(b, c),
{
    assert(s.subrange(a, c) =~= s.subrange(a, b) + s.subrange(b, c));
}

/// Serialization distributes over concatenation of forests.
pub proof fn lemma_ser_concat(src: Seq<char>, a: Seq<PropertyValue>, b: Seq<PropertyValue>)
    ensures
        forest_ser(src, a + b) == forest_ser(src, a) + forest_ser(src, b),
    decreases b.len(),
{
    if b.len() == 0 {
        assert(a + b =~= a);
        assert(forest_ser(src, a) + forest_ser(src, b) =~= forest_ser(src, a));
    } else {
        assert((a + b).drop_last() =~= a + b.drop_last());
        lemma_ser_concat(src, a, b.drop_last());
        assert((a + b).last() == b.last());
        assert(forest_ser(src, a) + (forest_ser(src, b.drop_last()) + node_ser(src, b.last()))
            =~= (forest_ser(src, a) + forest_ser(src, b.drop_last())) + node_ser(
            src,
            b.last(),
        ));
    }
}

/// The two serialization recursions agree: from node `i` on, the forward
/// form equals the serialization of the suffix.
pub proof fn lemma_ser_from_eq(src: Seq<char>, vs: Seq<PropertyValue>, i: int)
    requires
        0 <= i <= vs.len(),
    ensures
        ser_from(src, vs, i) == forest_ser(src, vs.subrange(i, vs.len() as int)),
    decreases vs.len() - i,
{
    if i == vs.len() {
        assert(vs.subrange(i, vs.len() as int) =~= Seq::<PropertyValue>::empty());
    } else {
        lemma_ser_from_eq(src, vs, i + 1);
        assert(vs.subrange(i, vs.len() as int) =~= seq![vs[i]] + vs.subrange(
            i + 1,
            vs.len() as int,
        ));
        lemma_ser_concat(src, seq![vs[i]], vs.subrange(i + 1, vs.len() as int));
        assert(seq![vs[i]].drop_last() =~= Seq::<PropertyValue>::empty());
        assert(forest_ser(src, Seq::<PropertyValue>::empty()) == Seq::<char>::empty());
        assert(forest_ser(src, seq![vs[i]]) == forest_ser(src, seq![vs[i]].drop_last())
            + node_ser(src, seq![vs[i]].last()));
        assert(forest_ser(src, seq![vs[i]]) =~= node_ser(src, vs[i]));
    }
}

/// A parsed top-level node serializes to exactly the source span it covers.
pub proof fn lemma_top_node_ser(src: Seq<char>, n: PropertyValue, p: int)
    requires
        is_top_node(src, n, p),
    ensures
        node_ser(src, n) == src.subrange(p, top_node_end(src, p)),
{
    if is_ws(src[p]) {
        lemma_ws_end_ge(src, p);
    } else if is_comment_char(src[p]) {
        lemma_comment_end_ge(src, p);
    } else {
        let cs = n.children->Some_0@;
        let ke = key_end(src, p);
        let se = sep_end(src, ke);
        let ve = value_end(src, se);
        lemma_key_end_ge(src, p);
        lemma_sep_end_from_ge(src, ke, false);
        lemma_value_end_ge(src, se);
        assert(children_ser(src, cs) == children_ser(src, cs.drop_last()) + leaf_ser(
            src,
            cs[2],
        ));
        assert(cs.drop_last().drop_last() =~= seq![cs[0]]);
        assert(seq![cs[0]].drop_last() =~= Seq::<PropertyValue>::empty());
        assert(children_ser(src, cs.drop_last()) == children_ser(src, seq![cs[0]]) + leaf_ser(
            src,
            cs.drop_last().last(),
        ));
        assert(cs.drop_last().last() == cs[1]);
        assert(children_ser(src, Seq::<PropertyValue>::empty()) == Seq::<char>::empty());
        assert(children_ser(src, seq![cs[0]]) == children_ser(src, seq![cs[0]].drop_last())
            + leaf_ser(src, seq![cs[0]].last()));
        assert(children_ser(src, seq![cs[0]]) =~= leaf_ser(src, cs[0]));
        assert(leaf_ser(src, cs[0]) == src.subrange(p, ke));
        assert(leaf_ser(src, cs[1]) == src.subrange(ke, se));
        assert(leaf_ser(src, cs[2]) == src.subrange(se, ve));
        lemma_subrange_concat(src, p, ke, se);
        lemma_subrange_concat(src, p, se, ve);
        assert(node_ser(src, n) =~= src.subrange(p, ve));
    }
}

/// A forest that covers `[p, q)` of the source serializes, from node `i`
/// on, to exactly that part of the source.
pub proof fn lemma_covers_ser(
    src: Seq<char>,
    vs: Seq<PropertyValue>,
    i: int,
    p: int,
    q: int,
)
    requires
        forest_covers(src, vs, i, p, q),
        0 <= i <= vs.len(),
        0 <= p <= src.len(),
    ensures
        p <= q <= src.len(),
        ser_from(src, vs, i) == src.subrange(p, q),
    decreases vs.len() - i,
{
    if i == vs.len() {
        assert(ser_from(src, vs, i) =~= src.subrange(p, p));
    } else {
        let e = top_node_end(src, p);
        lemma_top_node_end_bounds(src, p);
        lemma_covers_ser(src, vs, i + 1, e, q);
        lemma_top_node_ser(src, vs[i], p);
        lemma_subrange_concat(src, p, e, q);
    }
}

/// Serializing a freshly parsed forest reproduces the source exactly.
pub proof fn lemma_parse_ser(src: Seq<char>, vs: Seq<PropertyValue>)
    requires
        is_parse_of(src, vs),
    ensures
        forest_ser(src, vs) == src,
{
    lemma_covers_ser(src, vs, 0, 0, src.len() as int);
    lemma_ser_from_eq(src, vs, 0);
    assert(vs.subrange(0, vs.len() as int) =~= vs);
    assert(src.subrange(0, src.len() as int) =~= src);
}

/// Every top-level node moves the position strictly forwards and stays
/// within the source.
pub proof fn lemma_top_node_end_bounds(src: Seq<char>, p: int)
    requires
        0 <= p < src.len(),
    ensures
        p < top_node_end(src, p) <= src.len(),
{
    if is_ws(src[p]) {
        lemma_ws_end_ge(src, p + 1);
    } else if is_comment_char(src[p]) {
        lemma_comment_end_ge(src, p + 1);
    } else {
        lemma_property_end_ge(src, p);
        if starts_sep_char(src[p]) {
            // a separator character at the start: the key is empty and the
            // separator consumes at least one character
            assert(key_end(src, p) == p);
            lemma_sep_end_from_ge(src, p + 1, true);
            lemma_value_end_ge(src, sep_end(src, p));
        } else {
            lemma_key_end_ge(src, esc_end(src, p));
            lemma_key_end_ge(src, p + 1);
            lemma_sep_end_from_ge(src, key_end(src, p), false);
            lemma_value_end_ge(src, sep_end(src, key_end(src, p)));
        }
    }
}

} // verus!
