//! Escaping of keys and values for writing, and the few small helpers around
//! `std` string and character primitives that the rest of the crate builds on.

use vstd::prelude::*;
use vstd::string::StrSliceExecFns;
use vstd::string::StringExecFns;

verus! {

/// Relies on `String::push`: appends exactly the given character.
#[verifier::external_body]
pub fn push_char(s: &mut String, c: char)
    ensures
        final(s)@ == old(s)@.push(c),
{
    s.push(c);
}

/// Relies on `char::from_u32`: converts a code point to its character,
/// returning nothing exactly for surrogates and values past the last code
/// point.
#[verifier::external_body]
pub fn char_from_u32(v: u32) -> (c: Option<char>)
    ensures
        c is Some <==> (v < 0xD800 || (0xE000 <= v && v <= 0x10FFFF)),
        c matches Some(ch) ==> ch == v as char,
{
    char::from_u32(v)
}

// ---------------------------------------------------------------------------
// The escaping model
// ---------------------------------------------------------------------------

/// First match of a character in an escape table.
pub open spec fn esc_map_lookup(m: Seq<(char, Seq<char>)>, c: char) -> Option<Seq<char>>
    decreases m.len(),
{
    if m.len() == 0 {
        None
    } else if m[0].0 == c {
        Some(m[0].1)
    } else {
        esc_map_lookup(m.drop_first(), c)
    }
}

/// The lowercase hexadecimal digit of a value below sixteen.
pub open spec fn hex_digit_char(v: u32) -> char {
    if v < 10 {
        (0x30 + v) as char
    } else {
        (0x57 + v) as char
    }
}

/// Four zero-padded hexadecimal digits of a value up to `0xFFFF`.
pub open spec fn esc_hex4(v: u32) -> Seq<char> {
    seq![
        hex_digit_char((v / 0x1000) as u32),
        hex_digit_char(((v / 0x100) % 16) as u32),
        hex_digit_char(((v / 0x10) % 16) as u32),
        hex_digit_char((v % 16) as u32),
    ]
}

/// The hexadecimal digits of a code point, zero-padded to at least four
/// digits.  A code point above `0xFFFF` needs five or six digits, while
/// the `\u` escape of the grammar reads back exactly four: such
/// characters cannot be written in a form this format reads back.
pub open spec fn esc_hex(v: u32) -> Seq<char> {
    if v <= 0xFFFF {
        esc_hex4(v)
    } else if v <= 0xFFFFF {
        seq![hex_digit_char((v / 0x10000) as u32)] + esc_hex4((v % 0x10000) as u32)
    } else {
        seq![
            hex_digit_char((v / 0x100000) as u32),
            hex_digit_char(((v / 0x10000) % 16) as u32),
        ] + esc_hex4((v % 0x10000) as u32)
    }
}

/// The escaped text of one character: its table entry if it has one, itself
/// if it is plain seven-bit text, and a `\u` escape otherwise.
pub open spec fn escape_char(m: Seq<(char, Seq<char>)>, c: char) -> Seq<char> {
    match esc_map_lookup(m, c) {
        Some(t) => t,
        None => if (c as u32) <= 0x7F {
            seq![c]
        } else {
            seq!['\\', 'u'] + esc_hex(c as u32)
        },
    }
}

/// The escaped text of a string under an escape table.
pub open spec fn escape_seq(s: Seq<char>, m: Seq<(char, Seq<char>)>) -> Seq<char>
    decreases s.len(),
{
    if s.len() == 0 {
        Seq::empty()
    } else {
        escape_seq(s.drop_last(), m) + escape_char(m, s.last())
    }
}

/// The escape table of the key context: space, line feed, `:` and `=`.
pub open spec fn key_escape_pairs() -> Seq<(char, Seq<char>)> {
    seq![
        (' ', seq!['\\', ' ']),
        ('\n', seq!['\\', 'n']),
        (':', seq!['\\', ':']),
        ('=', seq!['\\', '=']),
    ]
}

/// The escape table of the value context: the line feed alone.
pub open spec fn value_escape_pairs() -> Seq<(char, Seq<char>)> {
    seq![('\n', seq!['\\', 'n'])]
}

/// The view of an executable escape table.
pub open spec fn pairs_view(m: Seq<(char, String)>) -> Seq<(char, Seq<char>)> {
    m.map_values(|p: (char, String)| (p.0, p.1@))
}

// ---------------------------------------------------------------------------
// The executable escaper
// ---------------------------------------------------------------------------

/// The lowercase hexadecimal digit of a value below sixteen.
fn hex_digit(v: u32) -> (c: char)
    requires
        v < 16,
    ensures
        c == hex_digit_char(v),
{
    if v < 10 {
        (0x30u8 + v as u8) as char
    } else {
        (0x57u8 + v as u8) as char
    }
}

/// Appends the four zero-padded hexadecimal digits of a value up to
/// `0xFFFF`.
fn push_hex4(out: &mut String, v: u32)
    requires
        v <= 0xFFFF,
    ensures
        final(out)@ == old(out)@ + esc_hex4(v),
{
    let ghost before = out@;
    push_char(out, hex_digit(v / 0x1000));
    push_char(out, hex_digit((v / 0x100) % 16));
    push_char(out, hex_digit((v / 0x10) % 16));
    push_char(out, hex_digit(v % 16));
    proof {
        assert(out@ =~= before + esc_hex4(v));
    }
}

/// Escapes a string under an escape table: table entries first, plain
/// seven-bit characters unchanged, anything else as a `\u` escape.
pub fn escape(s: &str, map: &Vec<(char, String)>) -> (r: String)
    ensures
        r@ == escape_seq(s@, pairs_view(map@)),
{
    let ghost pairs = pairs_view(map@);
    let mut out = String::new();
    let n = s.unicode_len();
    let mut i: usize = 0;
    proof {
        assert(out@ =~= escape_seq(s@.subrange(0, 0), pairs));
    }
    while i < n
        invariant
            n == s@.len(),
            i <= n,
            pairs == pairs_view(map@),
            out@ == escape_seq(s@.subrange(0, i as int), pairs),
        decreases n - i,
    {
        let chr = s.get_char(i);
        let ghost prefix = out@;

        // look the character up in the table
        let mut j: usize = 0;
        let mut found = false;
        proof {
            assert(pairs.subrange(0, pairs.len() as int) =~= pairs);
        }
        while j < map.len() && !found
            invariant
                j <= map@.len(),
                pairs == pairs_view(map@),
                !found ==> esc_map_lookup(pairs, chr) == esc_map_lookup(
                    pairs.subrange(j as int, pairs.len() as int),
                    chr,
                ),
                found ==> j < map@.len() && map@[j as int].0 == chr && esc_map_lookup(
                    pairs,
                    chr,
                ) == Some(map@[j as int].1@),
            decreases map@.len() - j, (if found { 0int } else { 1int }),
        {
            if map[j].0 == chr {
                found = true;
                proof {
                    assert(pairs.subrange(j as int, pairs.len() as int)[0] == pairs[j as int]);
                }
            } else {
                proof {
                    assert(pairs.subrange(j as int, pairs.len() as int).drop_first()
                        =~= pairs.subrange(j + 1, pairs.len() as int));
                }
                j = j + 1;
            }
        }
        if found {
            out.append(map[j].1.as_str());
        } else {
            proof {
                assert(pairs.subrange(pairs.len() as int, pairs.len() as int) =~= Seq::<
                    (char, Seq<char>),
                >::empty());
            }
            let code = chr as u32;
            if code <= 0x7F {
                push_char(&mut out, chr);
            } else {
                push_char(&mut out, '\\');
                push_char(&mut out, 'u');
                if code <= 0xFFFF {
                    push_hex4(&mut out, code);
                } else if code <= 0xFFFFF {
                    push_char(&mut out, hex_digit(code / 0x10000));
                    push_hex4(&mut out, code % 0x10000);
                } else {
                    push_char(&mut out, hex_digit(code / 0x100000));
                    push_char(&mut out, hex_digit((code / 0x10000) % 16));
                    push_hex4(&mut out, code % 0x10000);
                }
                proof {
                    assert(out@ =~= prefix + escape_char(pairs, chr));
                }
            }
        }
        proof {
            assert(s@.subrange(0, i + 1).drop_last() =~= s@.subrange(0, i as int));
            assert(s@.subrange(0, i + 1).last() == s@[i as int]);
            assert(out@ =~= escape_seq(s@.subrange(0, i + 1), pairs));
        }
        i = i + 1;
    }
    proof {
        assert(s@.subrange(0, n as int) =~= s@);
    }
    out
}

/// The executable escape table of the key context.
fn key_escape_map() -> (m: Vec<(char, String)>)
    ensures
        pairs_view(m@) == key_escape_pairs(),
{
    let mut m: Vec<(char, String)> = Vec::new();
    m.push((' ', String::from_str("\\ ")));
    m.push(('\n', String::from_str("\\n")));
    m.push((':', String::from_str("\\:")));
    m.push(('=', String::from_str("\\=")));
    proof {
        reveal_strlit("\\ ");
        reveal_strlit("\\n");
        reveal_strlit("\\:");
        reveal_strlit("\\=");
        assert(("\\ ")@ =~= seq!['\\', ' ']);
        assert(("\\n")@ =~= seq!['\\', 'n']);
        assert(("\\:")@ =~= seq!['\\', ':']);
        assert(("\\=")@ =~= seq!['\\', '=']);
        assert(pairs_view(m@) =~= key_escape_pairs());
    }
    m
}

/// The executable escape table of the value context.
fn value_escape_map() -> (m: Vec<(char, String)>)
    ensures
        pairs_view(m@) == value_escape_pairs(),
{
    let mut m: Vec<(char, String)> = Vec::new();
    m.push(('\n', String::from_str("\\n")));
    proof {
        reveal_strlit("\\n");
        assert(("\\n")@ =~= seq!['\\', 'n']);
        assert(pairs_view(m@) =~= value_escape_pairs());
    }
    m
}

/// Escapes a string for the key context.
pub fn escape_key(s: &str) -> (r: String)
    ensures
        r@ == escape_seq(s@, key_escape_pairs()),
{
    let map = key_escape_map();
    escape(s, &map)
}

/// Escapes a string for the value context.
pub fn escape_value(s: &str) -> (r: String)
    ensures
        r@ == escape_seq(s@, value_escape_pairs()),
{
    let map = value_escape_map();
    escape(s, &map)
}

/// Whether two string slices hold the same characters.
pub fn str_eq(a: &str, b: &str) -> (r: bool)
    ensures
        r == (a@ == b@),
{
    let na = a.unicode_len();
    let nb = b.unicode_len();
    if na != nb {
        return false;
    }
    let mut i: usize = 0;
    while i < na
        invariant
            na == a@.len(),
            na == b@.len(),
            i <= na,
            forall|j: int| 0 <= j < i ==> a@[j] == b@[j],
        decreases na - i,
    {
        if a.get_char(i) != b.get_char(i) {
            return false;
        }
        i = i + 1;
    }
    proof {
        assert(a@ =~= b@);
    }
    true
}

} // verus!
