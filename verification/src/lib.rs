//! Format-preserving parser and editor for Java-style `.properties` text.
//!
//! A source string is parsed into an ordered forest of typed nodes that
//! records every character span of the original text, so that serializing an
//! unmodified document reproduces the source exactly.  Keys can be looked up,
//! replaced in place, or removed, touching only the minimal span of text.

use vstd::prelude::*;

pub mod iterator;
pub mod laws;
pub mod model;
pub mod parser;
pub mod table;
pub mod utils;

use crate::iterator::Iterator;

verus! {

/// The kind of a parsed node.
#[derive(PartialEq, Eq, Structural, Debug)]
pub enum PropertyType {
    Property,
    Key,
    Value,
    Whitespace,
    Comment,
    LineBreak,
    EscapedValue,
    Separator,
    Raw,
}

/// A half-open `[start, end)` range of character offsets into the source.
#[derive(Debug)]
pub struct PropertyRange {
    pub start: usize,
    pub end: usize,
}

/// The payload of a node: either a span of the original source or owned text
/// produced by an edit.
#[derive(Debug)]
pub enum PropertyData {
    Range(PropertyRange),
    Text(String),
}

/// One node of the forest: payload, optional ordered children, and kind.
#[derive(Debug)]
pub struct PropertyValue {
    pub data: PropertyData,
    pub children: Option<Vec<PropertyValue>>,
    pub type_: PropertyType,
}

// ---------------------------------------------------------------------------
// Decoding escapes inside a span
// ---------------------------------------------------------------------------

/// Whether a character is a hexadecimal digit.
fn is_hex_digit(c: char) -> (r: bool)
    ensures
        r == model::is_hex(c),
{
    let v = c as u32;
    (0x30 <= v && v <= 0x39) || (0x61 <= v && v <= 0x66) || (0x41 <= v && v <= 0x46)
}

/// The value of a hexadecimal digit.
fn hex_digit_value(c: char) -> (r: u32)
    ensures
        r == model::hex_val(c),
{
    let v = c as u32;
    if 0x30 <= v && v <= 0x39 {
        v - 0x30
    } else if 0x61 <= v && v <= 0x66 {
        v - 0x57
    } else if 0x41 <= v && v <= 0x46 {
        v - 0x37
    } else {
        0
    }
}

/// Where the escape whose backslash stands at `p` ends.
fn esc_extent(iter: &Iterator, p: usize) -> (e: usize)
    requires
        iter.wf(),
        p < iter.src().len(),
    ensures
        e == model::esc_end(iter.src(), p as int),
        p < e <= iter.src().len(),
{
    if p + 1 >= iter.length {
        p + 1
    } else if iter.chars[p + 1] == 'u' {
        if iter.length - p >= 6 {
            p + 6
        } else {
            iter.length
        }
    } else {
        p + 2
    }
}

/// Appends what the escape whose backslash stands at `p` decodes to, and
/// returns where the escape ends.
fn push_esc_dec(iter: &Iterator, p: usize, out: &mut String) -> (e: usize)
    requires
        iter.wf(),
        p < iter.src().len(),
    ensures
        e == model::esc_end(iter.src(), p as int),
        p < e <= iter.src().len(),
        final(out)@ == old(out)@ + model::esc_dec(iter.src(), p as int),
{
    let e = esc_extent(iter, p);
    if e - p >= 2 {
        let c1 = iter.chars[p + 1];
        if c1 == 't' {
            utils::push_char(out, '\t');
        } else if c1 == 'r' {
            utils::push_char(out, '\r');
        } else if c1 == 'n' {
            utils::push_char(out, '\n');
        } else if c1 == 'f' {
            utils::push_char(out, '\u{000C}');
        } else if c1 == 'u' {
            let mut code: u32 = 0;
            if iter.length - p >= 6 {
                let d2 = iter.chars[p + 2];
                let d3 = iter.chars[p + 3];
                let d4 = iter.chars[p + 4];
                let d5 = iter.chars[p + 5];
                if is_hex_digit(d2) && is_hex_digit(d3) && is_hex_digit(d4) && is_hex_digit(d5) {
                    code = hex_digit_value(d2) * 0x1000 + hex_digit_value(d3) * 0x100
                        + hex_digit_value(d4) * 0x10 + hex_digit_value(d5);
                }
            }
            proof {
                assert(code == model::u_code(iter.src(), p as int));
                assert(code <= 0xFFFF);
            }
            let ch = match utils::char_from_u32(code) {
                Some(c) => c,
                None => '\u{FFFD}',
            };
            utils::push_char(out, ch);
        } else {
            utils::push_char(out, c1);
        }
    }
    e
}

/// Where the line continuation whose backslash stands at `p` ends.
fn lb_extent(iter: &Iterator, p: usize) -> (e: usize)
    requires
        iter.wf(),
        p < iter.src().len(),
        model::starts_lb_at(iter.src(), p as int),
    ensures
        e == model::lb_end(iter.src(), p as int),
        p < e <= iter.src().len(),
{
    let ghost src = iter.src();
    let mut q = p + 1;
    if iter.chars[q] == '\r' {
        q = q + 1;
        if q < iter.length && iter.chars[q] == '\n' {
            q = q + 1;
        }
    } else {
        q = q + 1;
    }
    let ghost p3 = q as int;
    while q < iter.length && parser::is_whitespace(iter.chars[q]) && !parser::is_eol(
        iter.chars[q],
    )
        invariant
            iter.wf(),
            iter.src() == src,
            p < q,
            q <= src.len(),
            model::cont_ws_end(src, p3) == model::cont_ws_end(src, q as int),
        decreases src.len() - q,
    {
        q = q + 1;
    }
    proof {
        model::lemma_lb_end_bounds(src, p as int);
    }
    q
}

/// The logical string of the key span `[a, b)`.
fn decode_key_span(iter: &Iterator, a: usize, b: usize) -> (r: String)
    requires
        iter.wf(),
        a <= b <= iter.src().len(),
    ensures
        r@ == model::key_span_dec(iter.src(), a as int, b as int),
{
    let ghost src = iter.src();
    let mut out = String::new();
    let mut p = a;
    proof {
        assert(model::key_span_dec(src, a as int, b as int) =~= out@ + model::key_span_dec(
            src,
            a as int,
            b as int,
        ));
    }
    while p < b
        invariant
            iter.wf(),
            iter.src() == src,
            a <= p <= b <= src.len(),
            model::key_span_dec(src, a as int, b as int) =~= out@ + model::key_span_dec(
                src,
                p as int,
                b as int,
            ),
        decreases b - p,
    {
        let c = iter.chars[p];
        if c == '\\' {
            let ghost p0 = p as int;
            let ghost before = out@;
            let e = push_esc_dec(iter, p, &mut out);
            p = if e < b {
                e
            } else {
                b
            };
            proof {
                assert(out@ + model::key_span_dec(src, p as int, b as int) =~= before
                    + model::key_span_dec(src, p0, b as int));
            }
        } else {
            utils::push_char(&mut out, c);
            proof {
                assert(out@ + model::key_span_dec(src, p + 1, b as int) =~= out@.drop_last()
                    + model::key_span_dec(src, p as int, b as int));
            }
            p = p + 1;
        }
    }
    proof {
        assert(model::key_span_dec(src, a as int, b as int) =~= out@);
    }
    out
}

/// The logical string of the value span `[a, b)`.
fn decode_value_span(iter: &Iterator, a: usize, b: usize) -> (r: String)
    requires
        iter.wf(),
        a <= b <= iter.src().len(),
    ensures
        r@ == model::value_span_dec(iter.src(), a as int, b as int),
{
    let ghost src = iter.src();
    let mut out = String::new();
    let mut p = a;
    while p < b
        invariant
            iter.wf(),
            iter.src() == src,
            a <= p <= b <= src.len(),
            model::value_span_dec(src, a as int, b as int) =~= out@ + model::value_span_dec(
                src,
                p as int,
                b as int,
            ),
        decreases b - p,
    {
        let c = iter.chars[p];
        if c == '\\' && p + 1 < iter.length && parser::is_eol(iter.chars[p + 1]) {
            let ghost p0 = p as int;
            let e = lb_extent(iter, p);
            p = if e < b {
                e
            } else {
                b
            };
            proof {
                assert(model::value_span_dec(src, p0, b as int) == model::value_span_dec(
                    src,
                    p as int,
                    b as int,
                ));
            }
        } else if c == '\\' {
            let ghost p0 = p as int;
            let ghost before = out@;
            let e = push_esc_dec(iter, p, &mut out);
            p = if e < b {
                e
            } else {
                b
            };
            proof {
                assert(!model::starts_lb_at(src, p0));
                assert(out@ + model::value_span_dec(src, p as int, b as int) =~= before
                    + model::value_span_dec(src, p0, b as int));
            }
        } else {
            utils::push_char(&mut out, c);
            proof {
                assert(out@ + model::value_span_dec(src, p + 1, b as int) =~= out@.drop_last()
                    + model::value_span_dec(src, p as int, b as int));
            }
            p = p + 1;
        }
    }
    proof {
        assert(model::value_span_dec(src, a as int, b as int) =~= out@);
    }
    out
}

// ---------------------------------------------------------------------------
// The document model
// ---------------------------------------------------------------------------

/// A parsed properties document: the source text, the node forest, the
/// key-to-forest-index table, and the eagerly decoded key-to-value table.
#[derive(Debug)]
pub struct Properties {
    contents: String,
    values: Vec<PropertyValue>,
    value_map: Vec<(String, usize)>,
    data: Vec<(String, String)>,
}

impl Properties {
    /// The source characters the document was parsed from.
    pub closed spec fn src_view(&self) -> Seq<char> {
        self.contents@
    }

    /// The node forest.
    pub closed spec fn forest(&self) -> Seq<PropertyValue> {
        self.values@
    }

    /// The decoded value the document binds to a key.
    pub closed spec fn data_lookup(&self, k: Seq<char>) -> Option<Seq<char>> {
        table::s_lookup(self.data@, k)
    }

    /// The forest index the document binds to a key.
    pub closed spec fn index_lookup(&self, k: Seq<char>) -> Option<int> {
        table::i_lookup(self.value_map@, k)
    }

    /// The document is sound: every node is structurally sound, the two
    /// side tables have distinct keys and agree on which keys exist, and
    /// every index entry points at a distinct property or raw line of the
    /// forest.
    pub closed spec fn wf(&self) -> bool {
        &&& forall|i: int|
            0 <= i < self.values@.len() ==> model::node_wf(
                #[trigger] self.values@[i],
                self.contents@.len() as int,
            )
        &&& table::s_distinct(self.data@)
        &&& table::i_distinct(self.value_map@)
        &&& forall|j: int|
            0 <= j < self.value_map@.len() ==> {
                let e = #[trigger] self.value_map@[j];
                &&& (e.1 as int) < self.values@.len()
                &&& (self.values@[e.1 as int].type_ == PropertyType::Property
                    || self.values@[e.1 as int].type_ == PropertyType::Raw)
            }
        &&& forall|a: int, b: int|
            0 <= a < b < self.value_map@.len() ==> (#[trigger] self.value_map@[a]).1 != (
            #[trigger] self.value_map@[b]).1
        &&& forall|k: Seq<char>|
            #[trigger] table::s_lookup(self.data@, k) is Some <==> table::i_lookup(
                self.value_map@,
                k,
            ) is Some
    }

    /// An empty document.
    pub fn new() -> (r: Properties)
        ensures
            r.wf(),
            r.src_view() == Seq::<char>::empty(),
            r.forest() == Seq::<PropertyValue>::empty(),
            forall|k: Seq<char>| #[trigger] r.data_lookup(k) is None,
            forall|k: Seq<char>| #[trigger] r.index_lookup(k) is None,
    {
        let r = Properties {
            contents: String::new(),
            values: Vec::new(),
            value_map: Vec::new(),
            data: Vec::new(),
        };
        proof {
            assert(r.contents@ =~= Seq::<char>::empty());
            assert(r.values@ =~= Seq::<PropertyValue>::empty());
        }
        r
    }

    /// Parses a full source string into a document.
    pub fn new_str(contents: &String) -> (r: Properties)
        ensures
            r.wf(),
            r.src_view() == contents@,
            model::is_parse_of(contents@, r.forest()),
            forall|k: Seq<char>|
                #[trigger] r.data_lookup(k) == model::entries_lookup(contents@, 0, k),
            forall|k: Seq<char>|
                #[trigger] r.index_lookup(k) == model::props_idx_range(
                    contents@,
                    r.forest(),
                    0,
                    r.forest().len() as int,
                    k,
                ),
    {
        let contents = contents.clone();
        let ghost src = contents@;

        let mut iter = Iterator::new(&contents);
        let mut value_map: Vec<(String, usize)> = Vec::new();

        let values = Self::build_property_values(&mut iter);
        let data = Self::build_properties(&values, &iter);

        let mut i: usize = 0;
        while i < values.len()
            invariant
                iter.wf(),
                iter.src() == src,
                i <= values@.len(),
                forall|m: int|
                    0 <= m < values@.len() ==> model::node_wf(
                        #[trigger] values@[m],
                        src.len() as int,
                    ),
                table::i_distinct(value_map@),
                forall|j: int|
                    0 <= j < value_map@.len() ==> {
                        let e = #[trigger] value_map@[j];
                        &&& (e.1 as int) < i
                        &&& values@[e.1 as int].type_ == PropertyType::Property
                    },
                forall|a: int, b: int|
                    0 <= a < b < value_map@.len() ==> (#[trigger] value_map@[a]).1 != (
                    #[trigger] value_map@[b]).1,
                forall|k: Seq<char>|
                    #[trigger] table::i_lookup(value_map@, k) == model::props_idx_range(
                        src,
                        values@,
                        0,
                        i as int,
                        k,
                    ),
            decreases values@.len() - i,
        {
            if values[i].type_ == PropertyType::Property {
                match &values[i].children {
                    Some(children) => {
                        let key = Self::build_property_component(&children[0], &iter);
                        proof {
                            assert(key@ == model::prop_key_dec(src, values@[i as int]));
                        }
                        table::idx_set(&mut value_map, key.as_str(), i);
                    },
                    None => {
                        proof {
                            assert(false);
                        }
                    },
                }
            }
            i = i + 1;
        }

        let r = Properties { contents, values, value_map, data };
        proof {
            assert forall|k: Seq<char>| #[trigger] r.data_lookup(k) == model::entries_lookup(
                src,
                0,
                k,
            ) by {
                model::lemma_covers_lookup(src, r.values@, 0, 0, k);
            }
            assert forall|k: Seq<char>|
                #[trigger] table::s_lookup(r.data@, k) is Some <==> table::i_lookup(
                    r.value_map@,
                    k,
                ) is Some by {
                model::lemma_covers_lookup(src, r.values@, 0, 0, k);
                model::lemma_lookup_idx_same(src, r.values@, 0, r.values@.len() as int, k);
            }
        }
        r
    }

    /// The decoded value bound to a key, or nothing when the document does
    /// not hold the key.
    pub fn get<'a>(&'a self, key: &str) -> (r: Option<&'a String>)
        requires
            self.wf(),
        ensures
            match r {
                Some(v) => self.data_lookup(key@) == Some(v@),
                None => self.data_lookup(key@) is None,
            },
    {
        table::tbl_get(&self.data, key)
    }

    /// Parses a source string into its key-to-value table alone,
    /// discarding the editable forest.
    pub fn parse(contents: &String) -> (r: Vec<(String, String)>)
        ensures
            table::s_distinct(r@),
            forall|k: Seq<char>|
                #[trigger] table::s_lookup(r@, k) == model::entries_lookup(contents@, 0, k),
    {
        let ghost src = contents@;
        let mut iter = Iterator::new(contents);
        let entries = Self::build_property_values(&mut iter);
        let data = Self::build_properties(&entries, &iter);
        proof {
            assert forall|k: Seq<char>| #[trigger] table::s_lookup(data@, k)
                == model::entries_lookup(src, 0, k) by {
                model::lemma_covers_lookup(src, entries@, 0, 0, k);
            }
        }
        data
    }

    /// Parses the whole input into the top-level node forest.
    fn build_property_values(iter: &mut Iterator) -> (vs: Vec<PropertyValue>)
        requires
            old(iter).wf(),
            old(iter).position == 0,
        ensures
            final(iter).wf(),
            final(iter).src() == old(iter).src(),
            final(iter).position == old(iter).src().len(),
            model::is_parse_of(old(iter).src(), vs@),
            forall|m: int|
                0 <= m < vs@.len() ==> model::node_wf(
                    #[trigger] vs@[m],
                    old(iter).src().len() as int,
                ),
    {
        let ghost src = iter.src();
        let mut values: Vec<PropertyValue> = Vec::new();

        while iter.position < iter.length
            invariant
                iter.wf(),
                iter.src() == src,
                model::forest_covers(src, values@, 0, 0, iter.position as int),
                forall|m: int|
                    0 <= m < values@.len() ==> model::node_wf(
                        #[trigger] values@[m],
                        src.len() as int,
                    ),
            decreases src.len() - iter.position,
        {
            let ghost p0 = iter.position as int;
            let chr = iter.chars[iter.position];

            let node = if parser::is_whitespace(chr) {
                parser::read_whitespace(iter)
            } else if parser::is_comment_indicator(chr) {
                parser::read_comment(iter)
            } else {
                parser::read_property(iter)
            };
            proof {
                assert(model::is_top_node(src, node, p0));
                assert(iter.position as int == model::top_node_end(src, p0));
                model::lemma_top_node_end_bounds(src, p0);
                model::lemma_top_node_wf(src, node, p0);
                model::lemma_covers_push(src, values@, 0, 0, p0, node);
            }
            values.push(node);
        }
        values
    }

    /// The logical string of one node: source slices between children, and
    /// each escape or continuation resolved.
    fn build_property_component(value: &PropertyValue, iter: &Iterator) -> (r: String)
        requires
            iter.wf(),
            value.data matches PropertyData::Range(rg) ==> rg.start <= rg.end
                <= iter.src().len(),
        ensures
            r@ == model::node_dec(iter.src(), *value),
    {
        match &value.data {
            PropertyData::Text(_) => {
                let r = String::new();
                proof {
                    assert(r@ =~= model::node_dec(iter.src(), *value));
                }
                r
            },
            PropertyData::Range(rg) => {
                if value.type_ == PropertyType::Key {
                    decode_key_span(iter, rg.start, rg.end)
                } else if value.type_ == PropertyType::Value {
                    decode_value_span(iter, rg.start, rg.end)
                } else {
                    iter.get_range(rg.start, rg.end)
                }
            },
        }
    }

    /// Binds a key to a value.  An existing property keeps its place in the
    /// text and only its value span is replaced; a new key is appended as a
    /// raw line of its own, after a fresh line feed when the text does not
    /// already end its own line.
    pub fn set(&mut self, key: &str, value: &str)
        requires
            old(self).wf(),
        ensures
            final(self).wf(),
            final(self).src_view() == old(self).src_view(),
            forall|k2: Seq<char>|
                #[trigger] final(self).data_lookup(k2) == (if k2 == key@ {
                    Some(value@)
                } else {
                    old(self).data_lookup(k2)
                }),
            match old(self).index_lookup(key@) {
                Some(j) => {
                    &&& forall|k2: Seq<char>|
                        #[trigger] final(self).index_lookup(k2) == old(self).index_lookup(k2)
                    &&& final(self).forest().len() == old(self).forest().len()
                    &&& forall|m: int|
                        0 <= m < old(self).forest().len() && m != j
                            ==> #[trigger] final(self).forest()[m] == old(self).forest()[m]
                    &&& (old(self).forest()[j].type_ == PropertyType::Property ==> ({
                        let oldn = old(self).forest()[j];
                        let newn = final(self).forest()[j];
                        &&& newn.type_ == PropertyType::Property
                        &&& newn.data == oldn.data
                        &&& (newn.children matches Some(cs2) && cs2@.len() == 3 && cs2@[0]
                            == oldn.children->Some_0@[0] && cs2@[1]
                            == oldn.children->Some_0@[1] && model::is_raw_text(
                            cs2@[2],
                            utils::escape_seq(value@, utils::value_escape_pairs()),
                        ))
                    }))
                    &&& (old(self).forest()[j].type_ != PropertyType::Property
                        ==> model::is_raw_text(
                        final(self).forest()[j],
                        utils::escape_seq(key@, utils::key_escape_pairs()) + seq!['=']
                            + utils::escape_seq(value@, utils::value_escape_pairs()),
                    ))
                },
                None => ({
                    let line = utils::escape_seq(key@, utils::key_escape_pairs()) + seq!['=']
                        + utils::escape_seq(value@, utils::value_escape_pairs());
                    let old_vs = old(self).forest();
                    &&& forall|k2: Seq<char>|
                        k2 != key@
                            ==> #[trigger] final(self).index_lookup(k2) == old(self).index_lookup(k2)
                    &&& final(self).index_lookup(key@) == Some(
                        final(self).forest().len() - 1,
                    )
                    &&& forall|m: int|
                        0 <= m < old_vs.len() ==> #[trigger] final(self).forest()[m]
                            == old_vs[m]
                    &&& model::is_raw_text(final(self).forest().last(), line)
                    &&& if old_vs.len() > 0 && !model::node_ends_line(
                        old(self).src_view(),
                        old_vs.last(),
                    ) {
                        &&& final(self).forest().len() == old_vs.len() + 2
                        &&& model::is_raw_text(
                            final(self).forest()[old_vs.len() as int],
                            seq!['\n'],
                        )
                    } else {
                        final(self).forest().len() == old_vs.len() + 1
                    }
                }),
            },
    {
        table::tbl_set(&mut self.data, key, value);
        let idx_opt = table::idx_get(&self.value_map, key);

        match idx_opt {
            Some(index) => {
                proof {
                    table::lemma_i_lookup_entry(self.value_map@, key@);
                }
                let ghost vs0 = self.values@;
                let node = self.values.remove(index);
                let PropertyValue { data, children, type_ } = node;

                if type_ == PropertyType::Raw {
                    let mut text = utils::escape_key(key);
                    text.append("=");
                    let escaped_value = utils::escape_value(value);
                    text.append(escaped_value.as_str());
                    proof {
                        reveal_strlit("=");
                        assert(("=")@ =~= seq!['=']);
                    }
                    let newnode = PropertyValue {
                        data: PropertyData::Text(text),
                        children: None,
                        type_: PropertyType::Raw,
                    };
                    self.values.insert(index, newnode);
                    proof {
                        assert(self.values@ =~= vs0.update(index as int, self.values@[index as int]));
                    }
                } else {
                    match children {
                        Some(mut cs) => {
                            let escaped_value = utils::escape_value(value);
                            let raw = PropertyValue {
                                data: PropertyData::Text(escaped_value),
                                children: None,
                                type_: PropertyType::Raw,
                            };
                            cs[2] = raw;
                            let newnode = PropertyValue {
                                data,
                                children: Some(cs),
                                type_: PropertyType::Property,
                            };
                            self.values.insert(index, newnode);
                            proof {
                                assert(self.values@ =~= vs0.update(
                                    index as int,
                                    self.values@[index as int],
                                ));
                            }
                        },
                        None => {
                            proof {
                                assert(false);
                            }
                        },
                    }
                }
            },
            None => {
                let len0 = self.values.len();
                let needs_nl = if len0 > 0 {
                    !Self::node_ends_line_ex(&self.contents, &self.values[len0 - 1])
                } else {
                    false
                };
                if needs_nl {
                    self.values.push(
                        PropertyValue {
                            data: PropertyData::Text(String::from_str("\n")),
                            children: None,
                            type_: PropertyType::Raw,
                        },
                    );
                    proof {
                        reveal_strlit("\n");
                        assert(("\n")@ =~= seq!['\n']);
                    }
                }
                let mut text = utils::escape_key(key);
                text.append("=");
                let escaped_value = utils::escape_value(value);
                text.append(escaped_value.as_str());
                proof {
                    reveal_strlit("=");
                    assert(("=")@ =~= seq!['=']);
                }
                self.values.push(
                    PropertyValue {
                        data: PropertyData::Text(text),
                        children: None,
                        type_: PropertyType::Raw,
                    },
                );
                let n = self.values.len();
                table::idx_set(&mut self.value_map, key, n - 1);
            },
        }
    }

    /// Removes a key: its binding disappears from both tables and, when the
    /// key stood in the forest, its node is removed and the indices past it
    /// are renumbered.
    pub fn unset(&mut self, key: &str)
        requires
            old(self).wf(),
        ensures
            final(self).wf(),
            final(self).src_view() == old(self).src_view(),
            forall|k2: Seq<char>|
                #[trigger] final(self).data_lookup(k2) == (if k2 == key@ {
                    None
                } else {
                    old(self).data_lookup(k2)
                }),
            final(self).index_lookup(key@) is None,
            match old(self).index_lookup(key@) {
                Some(j) => {
                    &&& final(self).forest() == old(self).forest().remove(j)
                    &&& forall|k2: Seq<char>|
                        k2 != key@ ==> #[trigger] final(self).index_lookup(k2) == (
                        match old(self).index_lookup(k2) {
                            Some(v) => Some(table::shift_idx(v, j)),
                            None => None,
                        })
                },
                None => *final(self) == *old(self),
            },
    {
        let idx_opt = table::idx_get(&self.value_map, key);
        table::tbl_remove(&mut self.data, key);

        if let Some(index) = idx_opt {
            proof {
                table::lemma_i_lookup_entry(self.value_map@, key@);
            }
            self.values.remove(index);
            table::idx_remove_shift(&mut self.value_map, key, index);
            proof {
                let vm0 = old(self).value_map@;
                let vs0 = old(self).forest();
                let j0 = choose|j0: int|
                    0 <= j0 < vm0.len() && (#[trigger] vm0[j0]).0@ == key@ && vm0[j0].1 as int
                        == index as int;
                assert forall|a: int| 0 <= a < self.value_map@.len() implies {
                    let e = #[trigger] self.value_map@[a];
                    &&& (e.1 as int) < self.values@.len()
                    &&& (self.values@[e.1 as int].type_ == PropertyType::Property
                        || self.values@[e.1 as int].type_ == PropertyType::Raw)
                } by {
                    let b = choose|b: int|
                        0 <= b < vm0.len() && (#[trigger] self.value_map@[a]).0@ == vm0[b].0@
                            && vm0[b].0@ != key@ && self.value_map@[a].1 as int
                            == table::shift_idx(vm0[b].1 as int, index as int);
                    assert(b != j0);
                    assert(vm0[b].1 != vm0[j0].1);
                    assert(self.values@[self.value_map@[a].1 as int] == vs0[vm0[b].1 as int]);
                }
                assert forall|a: int, b: int|
                    0 <= a < b < self.value_map@.len() implies (#[trigger] self.value_map@[a]).1
                    != (#[trigger] self.value_map@[b]).1 by {
                    let ba = choose|ba: int|
                        0 <= ba < vm0.len() && (#[trigger] self.value_map@[a]).0@ == vm0[ba].0@
                            && vm0[ba].0@ != key@ && self.value_map@[a].1 as int
                            == table::shift_idx(vm0[ba].1 as int, index as int);
                    let bb = choose|bb: int|
                        0 <= bb < vm0.len() && (#[trigger] self.value_map@[b]).0@ == vm0[bb].0@
                            && vm0[bb].0@ != key@ && self.value_map@[b].1 as int
                            == table::shift_idx(vm0[bb].1 as int, index as int);
                    assert(ba != bb);
                    assert(vm0[ba].1 != vm0[bb].1);
                    assert(vm0[ba].1 != vm0[j0].1);
                    assert(vm0[bb].1 != vm0[j0].1);
                }
            }
        }
    }

    /// Whether an entry appended after this node would already start its
    /// own line.
    pub fn is_newline_value(value: Option<&PropertyValue>) -> (r: bool)
        ensures
            r == match value {
                Some(n) => model::is_newline_node(*n),
                None => false,
            },
    {
        match value {
            Some(v) => {
                if v.type_ == PropertyType::LineBreak {
                    true
                } else if v.type_ == PropertyType::Raw {
                    match &v.data {
                        PropertyData::Text(s) => {
                            let n = s.as_str().unicode_len();
                            let mut all_ws = true;
                            let mut has_nl = false;
                            let mut i: usize = 0;
                            while i < n
                                invariant
                                    n == s@.len(),
                                    i <= n,
                                    all_ws == (forall|j: int|
                                        0 <= j < i ==> model::is_ws(#[trigger] s@[j])),
                                    has_nl == (exists|j: int| 0 <= j < i && s@[j] == '\n'),
                                decreases n - i,
                            {
                                let c = s.as_str().get_char(i);
                                if !parser::is_whitespace(c) {
                                    all_ws = false;
                                }
                                if c == '\n' {
                                    has_nl = true;
                                }
                                i = i + 1;
                            }
                            all_ws && has_nl
                        },
                        _ => false,
                    }
                } else {
                    false
                }
            },
            None => false,
        }
    }

    /// Whether a leaf's contributed text ends with a line terminator.
    fn leaf_ends_line_ex(contents: &String, n: &PropertyValue) -> (r: bool)
        requires
            model::leaf_wf(*n, contents@.len() as int),
        ensures
            r == model::leaf_ends_line(contents@, *n),
    {
        match &n.data {
            PropertyData::Text(s) => {
                if n.type_ == PropertyType::Raw {
                    let ln = s.as_str().unicode_len();
                    if ln > 0 {
                        parser::is_eol(s.as_str().get_char(ln - 1))
                    } else {
                        false
                    }
                } else {
                    false
                }
            },
            PropertyData::Range(rg) => {
                if n.type_ != PropertyType::Raw && rg.start < rg.end {
                    parser::is_eol(contents.as_str().get_char(rg.end - 1))
                } else {
                    false
                }
            },
        }
    }

    /// Whether a node's contributed text ends with a line terminator.
    fn node_ends_line_ex(contents: &String, n: &PropertyValue) -> (r: bool)
        requires
            model::node_wf(*n, contents@.len() as int),
        ensures
            r == model::node_ends_line(contents@, *n),
    {
        if n.type_ == PropertyType::Property {
            match &n.children {
                Some(cs) => Self::leaf_ends_line_ex(contents, &cs[2]),
                None => false,
            }
        } else {
            Self::leaf_ends_line_ex(contents, n)
        }
    }

    /// Appends what one leaf contributes to the serialized text.
    fn append_leaf(buf: &mut String, contents: &String, n: &PropertyValue)
        requires
            model::leaf_wf(*n, contents@.len() as int),
        ensures
            final(buf)@ == old(buf)@ + model::leaf_ser(contents@, *n),
    {
        match &n.data {
            PropertyData::Text(t) => {
                if n.type_ == PropertyType::Raw {
                    buf.append(t.as_str());
                } else {
                    proof {
                        assert(buf@ =~= old(buf)@ + model::leaf_ser(contents@, *n));
                    }
                }
            },
            PropertyData::Range(rg) => {
                if n.type_ != PropertyType::Raw {
                    buf.append(contents.as_str().substring_char(rg.start, rg.end));
                } else {
                    proof {
                        assert(buf@ =~= old(buf)@ + model::leaf_ser(contents@, *n));
                    }
                }
            },
        }
    }

    /// Serializes the document: untouched nodes contribute their original
    /// source slice, edited nodes their owned text.
    pub fn to_string(&self) -> (r: String)
        requires
            self.wf(),
        ensures
            r@ == model::forest_ser(self.src_view(), self.forest()),
    {
        let ghost src = self.contents@;
        let mut buf = String::new();
        let mut i: usize = 0;
        proof {
            assert(self.values@.subrange(0, 0) =~= Seq::<PropertyValue>::empty());
            assert(buf@ =~= model::forest_ser(src, self.values@.subrange(0, 0)));
        }
        while i < self.values.len()
            invariant
                self.wf(),
                src == self.contents@,
                i <= self.values@.len(),
                buf@ == model::forest_ser(src, self.values@.subrange(0, i as int)),
            decreases self.values@.len() - i,
        {
            let node = &self.values[i];
            let ghost before = buf@;
            if node.type_ == PropertyType::Property {
                match &node.children {
                    Some(cs) => {
                        Self::append_leaf(&mut buf, &self.contents, &cs[0]);
                        Self::append_leaf(&mut buf, &self.contents, &cs[1]);
                        Self::append_leaf(&mut buf, &self.contents, &cs[2]);
                        proof {
                            model::lemma_children_ser3(src, cs@);
                            assert(buf@ =~= before + model::node_ser(src, self.values@[i as int]));
                        }
                    },
                    None => {
                        proof {
                            assert(false);
                        }
                    },
                }
            } else {
                Self::append_leaf(&mut buf, &self.contents, node);
            }
            proof {
                assert(self.values@.subrange(0, i + 1).drop_last() =~= self.values@.subrange(
                    0,
                    i as int,
                ));
                assert(self.values@.subrange(0, i + 1).last() == self.values@[i as int]);
                assert(buf@ =~= model::forest_ser(src, self.values@.subrange(0, i + 1)));
            }
            i = i + 1;
        }
        proof {
            assert(self.values@.subrange(0, self.values@.len() as int) =~= self.values@);
        }
        buf
    }

    /// Decodes every property of a forest into the key-to-value table,
    /// later properties winning.
    fn build_properties(values: &Vec<PropertyValue>, iter: &Iterator) -> (data: Vec<
        (String, String),
    >)
        requires
            iter.wf(),
            forall|m: int|
                0 <= m < values@.len() ==> model::node_wf(
                    #[trigger] values@[m],
                    iter.src().len() as int,
                ),
        ensures
            table::s_distinct(data@),
            forall|k: Seq<char>|
                #[trigger] table::s_lookup(data@, k) == model::props_lookup_range(
                    iter.src(),
                    values@,
                    0,
                    values@.len() as int,
                    k,
                ),
    {
        let ghost src = iter.src();
        let mut data: Vec<(String, String)> = Vec::new();
        let mut i: usize = 0;
        while i < values.len()
            invariant
                iter.wf(),
                iter.src() == src,
                i <= values@.len(),
                forall|m: int|
                    0 <= m < values@.len() ==> model::node_wf(
                        #[trigger] values@[m],
                        src.len() as int,
                    ),
                table::s_distinct(data@),
                forall|k: Seq<char>|
                    #[trigger] table::s_lookup(data@, k) == model::props_lookup_range(
                        src,
                        values@,
                        0,
                        i as int,
                        k,
                    ),
            decreases values@.len() - i,
        {
            if values[i].type_ == PropertyType::Property {
                match &values[i].children {
                    Some(children) => {
                        let key = Self::build_property_component(&children[0], iter);
                        let val = Self::build_property_component(&children[2], iter);
                        proof {
                            assert(key@ == model::prop_key_dec(src, values@[i as int]));
                            assert(val@ == model::prop_val_dec(src, values@[i as int]));
                        }
                        table::tbl_set(&mut data, key.as_str(), val.as_str());
                    },
                    None => {
                        proof {
                            assert(false);
                        }
                    },
                }
            }
            i = i + 1;
        }
        data
    }
}

} // verus!
