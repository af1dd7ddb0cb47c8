//! Recursive-descent parsing routines over a cursor.  Each routine consumes
//! one construct of the properties grammar and returns the node that covers
//! exactly the consumed span.

use vstd::prelude::*;

use crate::iterator::Iterator;
use crate::model;
use crate::PropertyData;
use crate::PropertyRange;
use crate::PropertyType;
use crate::PropertyValue;

verus! {

/// Whether a character starts a comment.
pub fn is_comment_indicator(chr: char) -> (r: bool)
    ensures
        r == model::is_comment_char(chr),
{
    chr == '#' || chr == '!'
}

/// Whether a character terminates a line.
pub fn is_eol(chr: char) -> (r: bool)
    ensures
        r == model::is_eol_char(chr),
{
    chr == '\n' || chr == '\r'
}

/// Whether a character is white space, as `char::is_whitespace` counts it.
pub fn is_whitespace(chr: char) -> (r: bool)
    ensures
        r == model::is_ws(chr),
{
    let v = chr as u32;
    v == 0x9 || v == 0xA || v == 0xB || v == 0xC || v == 0xD || v == 0x20 || v == 0x85
        || v == 0xA0 || v == 0x1680 || (0x2000 <= v && v <= 0x200A) || v == 0x2028
        || v == 0x2029 || v == 0x202F || v == 0x205F || v == 0x3000
}

/// Whether a character starts an escape.
pub fn starts_escaped_value(chr: char) -> (r: bool)
    ensures
        r == (chr == '\\'),
{
    chr == '\\'
}

/// Whether a character starts a separator run.
pub fn starts_separator(chr: char) -> (r: bool)
    ensures
        r == model::starts_sep_char(chr),
{
    chr == '=' || chr == ':' || is_whitespace(chr)
}

/// Consumes the maximal white-space run under the cursor.
pub fn read_whitespace(iter: &mut Iterator) -> (n: PropertyValue)
    requires
        old(iter).wf(),
    ensures
        final(iter).wf(),
        final(iter).src() == old(iter).src(),
        final(iter).position == model::ws_end(old(iter).src(), old(iter).position as int),
        model::is_span_leaf(
            n,
            PropertyType::Whitespace,
            old(iter).position as int,
            final(iter).position as int,
        ),
{
    let ghost src = iter.src();
    let start = iter.position;
    while iter.position < iter.length && is_whitespace(iter.chars[iter.position])
        invariant
            iter.wf(),
            iter.src() == src,
            start <= iter.position,
            model::ws_end(src, start as int) == model::ws_end(src, iter.position as int),
        decreases src.len() - iter.position,
    {
        iter.next();
    }
    PropertyValue {
        data: PropertyData::Range(PropertyRange { start, end: iter.position }),
        children: None,
        type_: PropertyType::Whitespace,
    }
}

/// Consumes a comment: everything up to (not including) the next line
/// terminator or the end of input.
pub fn read_comment(iter: &mut Iterator) -> (n: PropertyValue)
    requires
        old(iter).wf(),
    ensures
        final(iter).wf(),
        final(iter).src() == old(iter).src(),
        final(iter).position == model::comment_end(old(iter).src(), old(iter).position as int),
        model::is_span_leaf(
            n,
            PropertyType::Comment,
            old(iter).position as int,
            final(iter).position as int,
        ),
{
    let ghost src = iter.src();
    let start = iter.position;
    while iter.position < iter.length && !is_eol(iter.chars[iter.position])
        invariant
            iter.wf(),
            iter.src() == src,
            start <= iter.position,
            model::comment_end(src, start as int) == model::comment_end(
                src,
                iter.position as int,
            ),
        decreases src.len() - iter.position,
    {
        iter.next();
    }
    PropertyValue {
        data: PropertyData::Range(PropertyRange { start, end: iter.position }),
        children: None,
        type_: PropertyType::Comment,
    }
}

/// Consumes an escape: the backslash, the escape letter, and for `\u` the
/// four digits after it, as far as the input reaches.
pub fn read_escaped_value(iter: &mut Iterator) -> (n: PropertyValue)
    requires
        old(iter).wf(),
        old(iter).position < old(iter).src().len(),
    ensures
        final(iter).wf(),
        final(iter).src() == old(iter).src(),
        final(iter).position == model::esc_end(old(iter).src(), old(iter).position as int),
        model::is_span_leaf(
            n,
            PropertyType::EscapedValue,
            old(iter).position as int,
            final(iter).position as int,
        ),
{
    let start = iter.position;

    // skip the backslash
    iter.next();

    let chr = iter.next();
    if let Some(chr) = chr {
        if chr == 'u' {
            iter.next_x(4);
        }
    }
    PropertyValue {
        data: PropertyData::Range(PropertyRange { start, end: iter.position }),
        children: None,
        type_: PropertyType::EscapedValue,
    }
}

/// Consumes a key: everything up to the first separator-starting character,
/// with each backslash absorbed as an escape child.
pub fn read_key(iter: &mut Iterator) -> (n: PropertyValue)
    requires
        old(iter).wf(),
    ensures
        final(iter).wf(),
        final(iter).src() == old(iter).src(),
        final(iter).position == model::key_end(old(iter).src(), old(iter).position as int),
        model::is_key_node(old(iter).src(), n, old(iter).position as int),
{
    let ghost src = iter.src();
    let start = iter.position;
    let mut children: Vec<PropertyValue> = Vec::new();
    while iter.position < iter.length && !starts_separator(iter.chars[iter.position])
        invariant
            iter.wf(),
            iter.src() == src,
            start <= iter.position,
            model::key_end(src, start as int) == model::key_end(src, iter.position as int),
            model::key_children(src, start as int) =~= model::child_spans(children@)
                + model::key_children(src, iter.position as int),
            forall|j: int|
                0 <= j < children@.len() ==> model::is_span_leaf(
                    #[trigger] children@[j],
                    PropertyType::EscapedValue,
                    children@[j].data->Range_0.start as int,
                    children@[j].data->Range_0.end as int,
                ),
        decreases src.len() - iter.position,
    {
        let chr = iter.chars[iter.position];
        if starts_escaped_value(chr) {
            let ghost p0 = iter.position as int;
            let child = read_escaped_value(iter);
            proof {
                assert(model::key_children(src, p0) == seq![(p0, model::esc_end(src, p0))]
                    + model::key_children(src, model::esc_end(src, p0)));
                assert(model::child_spans(children@.push(child)) =~= model::child_spans(
                    children@,
                ).push((p0, model::esc_end(src, p0))));
                assert(model::child_spans(children@.push(child)) + model::key_children(
                    src,
                    model::esc_end(src, p0),
                ) =~= model::child_spans(children@) + model::key_children(src, p0));
            }
            children.push(child);
        } else {
            iter.next();
        }
    }
    proof {
        assert(model::key_children(src, iter.position as int) =~= Seq::<(int, int)>::empty());
        assert(model::key_children(src, start as int) =~= model::child_spans(children@));
    }
    PropertyValue {
        data: PropertyData::Range(PropertyRange { start, end: iter.position }),
        children: Some(children),
        type_: PropertyType::Key,
    }
}

/// Consumes a separator: white space, at most one `:` or `=`, then white
/// space, stopping at a line terminator or other content.
pub fn read_separator(iter: &mut Iterator) -> (n: PropertyValue)
    requires
        old(iter).wf(),
    ensures
        final(iter).wf(),
        final(iter).src() == old(iter).src(),
        final(iter).position == model::sep_end(old(iter).src(), old(iter).position as int),
        model::is_sep_node(old(iter).src(), n, old(iter).position as int),
{
    let ghost src = iter.src();
    let start = iter.position;
    let mut after_separator = false;
    while iter.position < iter.length
        invariant
            iter.wf(),
            iter.src() == src,
            start <= iter.position,
            model::sep_end_from(src, start as int, false) == model::sep_end_from(
                src,
                iter.position as int,
                after_separator,
            ),
        ensures
            iter.wf(),
            iter.src() == src,
            start <= iter.position,
            model::sep_end_from(src, start as int, false) == iter.position as int,
        decreases src.len() - iter.position,
    {
        let chr = iter.chars[iter.position];

        if is_eol(chr) {
            break;
        }
        if is_whitespace(chr) {
            iter.next();
            continue;
        }
        if after_separator {
            break;
        }
        after_separator = chr == ':' || chr == '=';

        if after_separator {
            iter.next();
            continue;
        }
        break;
    }
    PropertyValue {
        data: PropertyData::Range(PropertyRange { start, end: iter.position }),
        children: None,
        type_: PropertyType::Separator,
    }
}

/// Whether the cursor stands on a backslash immediately followed by a line
/// terminator.
pub fn starts_line_break(iter: &mut Iterator) -> (r: bool)
    requires
        old(iter).wf(),
        old(iter).position < old(iter).src().len(),
    ensures
        *final(iter) == *old(iter),
        r == model::starts_lb_at(old(iter).src(), old(iter).position as int),
{
    let first = match iter.peek() {
        Some(c) => c,
        None => {
            return false;
        },
    };
    if first != '\\' {
        return false;
    }
    match iter.peek_x(1) {
        Some(c) => is_eol(c),
        None => false,
    }
}

/// Consumes a line continuation: the backslash, the terminator (`\r\n`
/// counting as one), and the leading white-space run of the next line.
pub fn read_line_break(iter: &mut Iterator) -> (n: PropertyValue)
    requires
        old(iter).wf(),
        old(iter).position < old(iter).src().len(),
        model::starts_lb_at(old(iter).src(), old(iter).position as int),
    ensures
        final(iter).wf(),
        final(iter).src() == old(iter).src(),
        final(iter).position == model::lb_end(old(iter).src(), old(iter).position as int),
        model::is_span_leaf(
            n,
            PropertyType::LineBreak,
            old(iter).position as int,
            final(iter).position as int,
        ),
{
    let ghost src = iter.src();
    let start = iter.position;

    // skip the backslash
    iter.next();

    if let Some(chr) = iter.peek() {
        if chr == '\r' {
            iter.next();
            // a line feed right after the carriage return belongs to the
            // same terminator
            if let Some(chr2) = iter.peek() {
                if chr2 == '\n' {
                    iter.next();
                }
            }
        } else {
            // the line feed
            iter.next();
        }
    }
    let ghost p3 = iter.position as int;
    while iter.position < iter.length && is_whitespace(iter.chars[iter.position]) && !is_eol(
        iter.chars[iter.position],
    )
        invariant
            iter.wf(),
            iter.src() == src,
            start <= iter.position,
            model::cont_ws_end(src, p3) == model::cont_ws_end(src, iter.position as int),
        decreases src.len() - iter.position,
    {
        iter.next();
    }
    PropertyValue {
        data: PropertyData::Range(PropertyRange { start, end: iter.position }),
        children: None,
        type_: PropertyType::LineBreak,
    }
}

/// Consumes a value: everything up to a line terminator, with each backslash
/// absorbed as a line continuation or an escape child.
pub fn read_value(iter: &mut Iterator) -> (n: PropertyValue)
    requires
        old(iter).wf(),
    ensures
        final(iter).wf(),
        final(iter).src() == old(iter).src(),
        final(iter).position == model::value_end(old(iter).src(), old(iter).position as int),
        model::is_value_node(old(iter).src(), n, old(iter).position as int),
{
    let ghost src = iter.src();
    let start = iter.position;
    let mut children: Vec<PropertyValue> = Vec::new();
    while iter.position < iter.length
        invariant
            iter.wf(),
            iter.src() == src,
            start <= iter.position,
            model::value_end(src, start as int) == model::value_end(src, iter.position as int),
            model::value_children(src, start as int) =~= model::marked_child_spans(children@)
                + model::value_children(src, iter.position as int),
            forall|j: int|
                0 <= j < children@.len() ==> model::is_span_leaf(
                    #[trigger] children@[j],
                    children@[j].type_,
                    children@[j].data->Range_0.start as int,
                    children@[j].data->Range_0.end as int,
                ),
            forall|j: int|
                0 <= j < children@.len() ==> (#[trigger] children@[j].type_)
                    == PropertyType::LineBreak || children@[j].type_
                    == PropertyType::EscapedValue,
        ensures
            iter.wf(),
            iter.src() == src,
            start <= iter.position,
            iter.position as int == model::value_end(src, start as int),
            model::value_children(src, start as int) =~= model::marked_child_spans(children@),
            forall|j: int|
                0 <= j < children@.len() ==> model::is_span_leaf(
                    #[trigger] children@[j],
                    children@[j].type_,
                    children@[j].data->Range_0.start as int,
                    children@[j].data->Range_0.end as int,
                ),
            forall|j: int|
                0 <= j < children@.len() ==> (#[trigger] children@[j].type_)
                    == PropertyType::LineBreak || children@[j].type_
                    == PropertyType::EscapedValue,
        decreases src.len() - iter.position,
    {
        let chr = iter.chars[iter.position];
        let ghost p0 = iter.position as int;

        if starts_line_break(iter) {
            let child = read_line_break(iter);
            proof {
                model::lemma_lb_end_bounds(src, p0);
                assert(model::value_children(src, p0) == seq![
                    (true, p0, model::lb_end(src, p0)),
                ] + model::value_children(src, model::lb_end(src, p0)));
                assert(model::marked_child_spans(children@.push(child))
                    =~= model::marked_child_spans(children@).push(
                    (true, p0, model::lb_end(src, p0)),
                ));
                assert(model::marked_child_spans(children@.push(child)) + model::value_children(
                    src,
                    model::lb_end(src, p0),
                ) =~= model::marked_child_spans(children@) + model::value_children(src, p0));
            }
            children.push(child);
        } else if starts_escaped_value(chr) {
            let child = read_escaped_value(iter);
            proof {
                assert(model::value_children(src, p0) == seq![
                    (false, p0, model::esc_end(src, p0)),
                ] + model::value_children(src, model::esc_end(src, p0)));
                assert(model::marked_child_spans(children@.push(child))
                    =~= model::marked_child_spans(children@).push(
                    (false, p0, model::esc_end(src, p0)),
                ));
                assert(model::marked_child_spans(children@.push(child)) + model::value_children(
                    src,
                    model::esc_end(src, p0),
                ) =~= model::marked_child_spans(children@) + model::value_children(src, p0));
            }
            children.push(child);
        } else if is_eol(chr) {
            proof {
                assert(model::value_end(src, p0) == p0);
                assert(model::value_children(src, p0) =~= Seq::<(bool, int, int)>::empty());
                assert(model::value_children(src, start as int) =~= model::marked_child_spans(
                    children@,
                ));
            }
            break;
        } else {
            iter.next();
        }
    }
    proof {
        if iter.position == src.len() {
            assert(model::value_children(src, iter.position as int) =~= Seq::<
                (bool, int, int),
            >::empty());
            assert(model::value_children(src, start as int) =~= model::marked_child_spans(
                children@,
            ));
        }
    }
    PropertyValue {
        data: PropertyData::Range(PropertyRange { start, end: iter.position }),
        children: Some(children),
        type_: PropertyType::Value,
    }
}

/// Consumes a property: key, separator, and value, in order.
pub fn read_property(iter: &mut Iterator) -> (n: PropertyValue)
    requires
        old(iter).wf(),
    ensures
        final(iter).wf(),
        final(iter).src() == old(iter).src(),
        final(iter).position == model::property_end(old(iter).src(), old(iter).position as int),
        model::is_property_node(old(iter).src(), n, old(iter).position as int),
{
    let start = iter.position;
    let key = read_key(iter);
    let sep = read_separator(iter);
    let value = read_value(iter);

    let mut children: Vec<PropertyValue> = Vec::new();
    children.push(key);
    children.push(sep);
    children.push(value);

    PropertyValue {
        data: PropertyData::Range(PropertyRange { start, end: iter.position }),
        children: Some(children),
        type_: PropertyType::Property,
    }
}

} // verus!
