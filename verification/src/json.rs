//! The structured values carried by the wire protocol, and their
//! line-oriented text form: a compact encoder and a parser that takes any
//! well-formed line, each pinned to a specification-level model.
//!
//! A number is kept as its literal text: this layer transports payloads
//! without interpreting their numeric content.
use crate::text::{lit_chars, push_chars};
use vstd::prelude::*;

verus! {

/// A structured payload value.
pub enum Json {
    Null,
    Bool(bool),
    /// A number, as its literal text.
    Num(Vec<char>),
    Str(Vec<char>),
    Arr(Vec<Json>),
    Obj(Vec<(Vec<char>, Json)>),
}

/// The specification-level model of a structured value.
pub ghost enum JVal {
    Null,
    Bool(bool),
    Num(Seq<char>),
    Str(Seq<char>),
    Arr(Seq<JVal>),
    Obj(Seq<(Seq<char>, JVal)>),
}

/// The model of an executable value.
pub open spec fn jview(j: Json) -> JVal
    decreases j,
{
    match j {
        Json::Null => JVal::Null,
        Json::Bool(b) => JVal::Bool(b),
        Json::Num(d) => JVal::Num(d@),
        Json::Str(s) => JVal::Str(s@),
        Json::Arr(es) => JVal::Arr(
            Seq::new(
                es@.len(),
                |i: int|
                    if 0 <= i < es@.len() {
                        jview(es@[i])
                    } else {
                        JVal::Null
                    },
            ),
        ),
        Json::Obj(fs) => JVal::Obj(
            Seq::new(
                fs@.len(),
                |i: int|
                    if 0 <= i < fs@.len() {
                        (fs@[i].0@, jview(fs@[i].1))
                    } else {
                        (Seq::empty(), JVal::Null)
                    },
            ),
        ),
    }
}

impl View for Json {
    type V = JVal;

    open spec fn view(&self) -> JVal {
        jview(*self)
    }
}

/// Whether `c` may appear in a number token.
pub open spec fn is_num_char(c: char) -> bool {
    is_digit(c) || c == '-' || c == '+' || c == '.' || c == 'e' || c == 'E'
}

/// Whether `c` is a decimal digit.
pub open spec fn is_digit(c: char) -> bool {
    ('0' as u32) <= (c as u32) && (c as u32) <= ('9' as u32)
}

/// The end of the run of decimal digits from `i`.
pub open spec fn digits_end(d: Seq<char>, i: int) -> int
    decreases d.len() - i,
{
    if 0 <= i < d.len() && is_digit(d[i]) {
        digits_end(d, i + 1)
    } else {
        i
    }
}

/// The digit run stays within the token and holds digits only.
pub proof fn lemma_digits_end(d: Seq<char>, i: int)
    requires
        0 <= i <= d.len(),
    ensures
        i <= digits_end(d, i) <= d.len(),
        forall|k: int| i <= k < digits_end(d, i) ==> is_digit(#[trigger] d[k]),
        digits_end(d, i) == d.len() || !is_digit(d[digits_end(d, i)]),
    decreases d.len() - i,
{
    if i < d.len() && is_digit(d[i]) {
        lemma_digits_end(d, i + 1);
    }
}

/// Where the integer part of a number token ends: one digit after an
/// initial zero, else the digit run.
pub open spec fn num_int_end(d: Seq<char>, i0: int) -> int {
    if d[i0] == '0' {
        i0 + 1
    } else {
        digits_end(d, i0)
    }
}

/// Where the fraction part ends, or a negative number when it is broken.
pub open spec fn num_frac_end(d: Seq<char>, ie: int) -> int {
    if ie < d.len() && d[ie] == '.' {
        if digits_end(d, ie + 1) > ie + 1 {
            digits_end(d, ie + 1)
        } else {
            -1
        }
    } else {
        ie
    }
}

/// Where the exponent part ends, or a negative number when it is broken.
pub open spec fn num_exp_end(d: Seq<char>, fe: int) -> int {
    if 0 <= fe && fe < d.len() && (d[fe] == 'e' || d[fe] == 'E') {
        let x = if fe + 1 < d.len() && (d[fe + 1] == '+' || d[fe + 1] == '-') {
            fe + 2
        } else {
            fe + 1
        };
        if digits_end(d, x) > x {
            digits_end(d, x)
        } else {
            -1
        }
    } else {
        fe
    }
}

/// A well-formed number token: the number grammar of the wire format — an
/// optional minus sign, an integer part without a leading zero, an optional
/// fraction, an optional exponent.
pub open spec fn num_wf(d: Seq<char>) -> bool {
    let i0: int = if d.len() > 0 && d[0] == '-' {
        1
    } else {
        0
    };
    &&& i0 < d.len()
    &&& is_digit(d[i0])
    &&& num_exp_end(d, num_frac_end(d, num_int_end(d, i0))) == d.len()
}

/// A well-formed number token starts with a minus sign or a digit and holds
/// number characters only.
pub proof fn lemma_num_wf_chars(d: Seq<char>)
    requires
        num_wf(d),
    ensures
        d.len() > 0,
        d[0] == '-' || is_digit(d[0]),
        forall|k: int| 0 <= k < d.len() ==> is_num_char(#[trigger] d[k]),
{
    let i0: int = if d.len() > 0 && d[0] == '-' {
        1
    } else {
        0
    };
    let ie = num_int_end(d, i0);
    let fe = num_frac_end(d, ie);
    let ee = num_exp_end(d, fe);
    lemma_digits_end(d, i0);
    assert(i0 <= ie <= d.len());
    assert(forall|k: int| i0 <= k < ie ==> is_digit(#[trigger] d[k]));
    if ie < d.len() && d[ie] == '.' {
        lemma_digits_end(d, ie + 1);
    }
    assert(ie <= fe <= d.len());
    assert(forall|k: int| ie < k < fe ==> is_digit(#[trigger] d[k]));
    if 0 <= fe && fe < d.len() && (d[fe] == 'e' || d[fe] == 'E') {
        let x = if fe + 1 < d.len() && (d[fe + 1] == '+' || d[fe + 1] == '-') {
            fe + 2
        } else {
            fe + 1
        };
        lemma_digits_end(d, x);
        assert(forall|k: int| x <= k < ee ==> is_digit(#[trigger] d[k]));
        assert(forall|k: int|
            fe <= k < ee ==> is_num_char(#[trigger] d[k]));
    }
    assert(ee == d.len());
    assert forall|k: int| 0 <= k < d.len() implies is_num_char(#[trigger] d[k]) by {
        if k < i0 {
            assert(d[k] == '-');
        } else if k < ie {
        } else if k < fe {
            if k > ie {
            } else {
                assert(d[ie] == '.');
            }
        } else {
        }
    }
}

/// A well-formed value: every number token in it is well-formed.
pub open spec fn jwf(v: JVal) -> bool
    decreases v,
{
    match v {
        JVal::Null => true,
        JVal::Bool(_) => true,
        JVal::Num(d) => num_wf(d),
        JVal::Str(_) => true,
        JVal::Arr(es) => forall|i: int| 0 <= i < es.len() ==> jwf(#[trigger] es[i]),
        JVal::Obj(fs) => forall|i: int| 0 <= i < fs.len() ==> jwf(#[trigger] fs[i].1),
    }
}

/// The hexadecimal digit for `v`.
pub open spec fn hex_digit(v: u32) -> char {
    if v < 10 {
        (('0' as u32) + v) as char
    } else {
        (('a' as u32) + (v - 10)) as char
    }
}

/// The encoding of one character of string content: the short escapes of the
/// wire format, `\u00XX` for other control characters, the character itself
/// otherwise.
pub open spec fn esc_char(c: char) -> Seq<char> {
    if c == '"' {
        seq!['\\', '"']
    } else if c == '\\' {
        seq!['\\', '\\']
    } else if c == '\n' {
        seq!['\\', 'n']
    } else if c == '\r' {
        seq!['\\', 'r']
    } else if c == '\t' {
        seq!['\\', 't']
    } else if (c as u32) == 8 {
        seq!['\\', 'b']
    } else if (c as u32) == 12 {
        seq!['\\', 'f']
    } else if (c as u32) < 32 {
        seq!['\\', 'u', '0', '0', hex_digit((c as u32) / 16), hex_digit((c as u32) % 16)]
    } else {
        seq![c]
    }
}

/// The encoding of string content, character by character.
pub open spec fn enc_str(s: Seq<char>) -> Seq<char>
    decreases s.len(),
{
    if s.len() == 0 {
        Seq::empty()
    } else {
        esc_char(s[0]) + enc_str(s.drop_first())
    }
}

/// The compact text encoding of a value: no inter-token spacing, object
/// fields in their held order, string content escaped by `esc_char`.
pub open spec fn enc(v: JVal) -> Seq<char>
    decreases v,
{
    match v {
        JVal::Null => "null"@,
        JVal::Bool(b) => if b {
            "true"@
        } else {
            "false"@
        },
        JVal::Num(d) => d,
        JVal::Str(s) => seq!['"'] + enc_str(s) + seq!['"'],
        JVal::Arr(es) => seq!['['] + enc_items(es) + seq![']'],
        JVal::Obj(fs) => seq!['{'] + enc_fields(fs) + seq!['}'],
    }
}

/// The comma-separated encodings of array items.
pub open spec fn enc_items(items: Seq<JVal>) -> Seq<char>
    decreases items,
{
    if items.len() == 0 {
        Seq::empty()
    } else if items.len() == 1 {
        enc(items[0])
    } else {
        enc(items[0]) + seq![','] + enc_items(items.drop_first())
    }
}

/// The comma-separated encodings of object fields.
pub open spec fn enc_fields(fields: Seq<(Seq<char>, JVal)>) -> Seq<char>
    decreases fields,
{
    if fields.len() == 0 {
        Seq::empty()
    } else if fields.len() == 1 {
        enc_field(fields[0])
    } else {
        enc_field(fields[0]) + seq![','] + enc_fields(fields.drop_first())
    }
}

/// The encoding of one object field: quoted key, colon, value.
pub open spec fn enc_field(field: (Seq<char>, JVal)) -> Seq<char>
    decreases field,
{
    seq!['"'] + enc_str(field.0) + seq!['"', ':'] + enc(field.1)
}

/// Appending a character extends the encoded content by its escape.
pub proof fn lemma_enc_str_snoc(s: Seq<char>, c: char)
    ensures
        enc_str(s.push(c)) == enc_str(s) + esc_char(c),
    decreases s.len(),
{
    let t = s.push(c);
    if s.len() == 0 {
        assert(t[0] == c);
        assert(t.drop_first() =~= Seq::<char>::empty());
        assert(enc_str(t.drop_first()) == Seq::<char>::empty());
        assert(enc_str(t) == esc_char(c) + enc_str(t.drop_first()));
        assert(enc_str(t) =~= esc_char(c));
        assert(enc_str(s) == Seq::<char>::empty());
        assert(enc_str(s) + esc_char(c) =~= esc_char(c));
    } else {
        assert(t[0] == s[0]);
        assert(t.drop_first() =~= s.drop_first().push(c));
        lemma_enc_str_snoc(s.drop_first(), c);
        assert(enc_str(t) == esc_char(s[0]) + (enc_str(s.drop_first()) + esc_char(c)));
        assert(enc_str(s) == esc_char(s[0]) + enc_str(s.drop_first()));
        assert(enc_str(t) =~= enc_str(s) + esc_char(c));
    }
}

/// Appending an item extends the encoded items by a comma and its encoding.
pub proof fn lemma_enc_items_snoc(items: Seq<JVal>, x: JVal)
    ensures
        enc_items(items.push(x)) == if items.len() == 0 {
            enc(x)
        } else {
            enc_items(items) + seq![','] + enc(x)
        },
    decreases items.len(),
{
    let t = items.push(x);
    if items.len() == 0 {
        assert(t[0] == x);
        assert(enc_items(t) == enc(x));
    } else if items.len() == 1 {
        assert(t[0] == items[0]);
        assert(t.drop_first() =~= seq![x]);
        assert(enc_items(t.drop_first()) == enc(x));
        assert(enc_items(t) =~= enc_items(items) + seq![','] + enc(x));
    } else {
        assert(t[0] == items[0]);
        assert(t.drop_first() =~= items.drop_first().push(x));
        lemma_enc_items_snoc(items.drop_first(), x);
        assert(enc_items(t) =~= enc_items(items) + seq![','] + enc(x));
    }
}

/// Appending a field extends the encoded fields by a comma and its encoding.
pub proof fn lemma_enc_fields_snoc(fields: Seq<(Seq<char>, JVal)>, x: (Seq<char>, JVal))
    ensures
        enc_fields(fields.push(x)) == if fields.len() == 0 {
            enc_field(x)
        } else {
            enc_fields(fields) + seq![','] + enc_field(x)
        },
    decreases fields.len(),
{
    let t = fields.push(x);
    if fields.len() == 0 {
        assert(t[0] == x);
        assert(enc_fields(t) == enc_field(x));
    } else if fields.len() == 1 {
        assert(t[0] == fields[0]);
        assert(t.drop_first() =~= seq![x]);
        assert(enc_fields(t.drop_first()) == enc_field(x));
        assert(enc_fields(t) =~= enc_fields(fields) + seq![','] + enc_field(x));
    } else {
        assert(t[0] == fields[0]);
        assert(t.drop_first() =~= fields.drop_first().push(x));
        lemma_enc_fields_snoc(fields.drop_first(), x);
        assert(enc_fields(t) =~= enc_fields(fields) + seq![','] + enc_field(x));
    }
}

/// The hexadecimal digit character for `v`.
fn hex_char(v: u32) -> (r: char)
    requires
        v < 16,
    ensures
        r == hex_digit(v),
{
    if v < 10 {
        ((('0' as u8) + (v as u8)) as u8) as char
    } else {
        ((('a' as u8) + ((v - 10) as u8)) as u8) as char
    }
}

/// Appends the escaped form of one character of string content.
fn push_esc_char(out: &mut Vec<char>, c: char)
    ensures
        final(out)@ == old(out)@ + esc_char(c),
{
    let code = c as u32;
    if c == '"' {
        out.push('\\');
        out.push('"');
    } else if c == '\\' {
        out.push('\\');
        out.push('\\');
    } else if c == '\n' {
        out.push('\\');
        out.push('n');
    } else if c == '\r' {
        out.push('\\');
        out.push('r');
    } else if c == '\t' {
        out.push('\\');
        out.push('t');
    } else if code == 8 {
        out.push('\\');
        out.push('b');
    } else if code == 12 {
        out.push('\\');
        out.push('f');
    } else if code < 32 {
        out.push('\\');
        out.push('u');
        out.push('0');
        out.push('0');
        out.push(hex_char(code / 16));
        out.push(hex_char(code % 16));
    } else {
        out.push(c);
    }
    proof {
        assert(final(out)@ =~= old(out)@ + esc_char(c));
    }
}

/// Appends the escaped content of `s`.
fn push_escaped(out: &mut Vec<char>, s: &[char])
    ensures
        final(out)@ == old(out)@ + enc_str(s@),
{
    let mut i: usize = 0;
    while i < s.len()
        invariant
            i <= s@.len(),
            out@ == old(out)@ + enc_str(s@.take(i as int)),
        decreases s@.len() - i,
    {
        push_esc_char(out, s[i]);
        proof {
            assert(s@.take(i + 1) =~= s@.take(i as int).push(s@[i as int]));
            lemma_enc_str_snoc(s@.take(i as int), s@[i as int]);
            assert(out@ =~= old(out)@ + enc_str(s@.take(i + 1)));
        }
        i += 1;
    }
    proof {
        assert(s@.take(s@.len() as int) =~= s@);
    }
}

/// Appends the compact encoding of `j`.
pub fn encode_json_into(out: &mut Vec<char>, j: &Json)
    ensures
        final(out)@ == old(out)@ + enc(j@),
    decreases *j,
{
    match j {
        Json::Null => {
            push_chars(out, lit_chars("null").as_slice());
        },
        Json::Bool(b) => {
            if *b {
                push_chars(out, lit_chars("true").as_slice());
            } else {
                push_chars(out, lit_chars("false").as_slice());
            }
        },
        Json::Num(d) => {
            push_chars(out, d.as_slice());
        },
        Json::Str(s) => {
            out.push('"');
            push_escaped(out, s.as_slice());
            out.push('"');
            proof {
                assert(out@ =~= old(out)@ + enc(j@));
            }
        },
        Json::Arr(es) => {
            let ghost items = j@->Arr_0;
            out.push('[');
            let mut i: usize = 0;
            while i < es.len()
                invariant
                    i <= es@.len(),
                    *j == Json::Arr(*es),
                    items == jview(*j)->Arr_0,
                    items.len() == es@.len(),
                    forall|k: int| 0 <= k < es@.len() ==> items[k] == jview(#[trigger] es@[k]),
                    out@ == old(out)@ + seq!['['] + enc_items(items.take(i as int)),
                decreases es@.len() - i,
            {
                if i > 0 {
                    out.push(',');
                }
                proof {
                    assert(decreases_to!(*j => *es));
                    assert(decreases_to!(*es => es@));
                    assert(decreases_to!(es@ => es@[i as int]));
                    assert(decreases_to!(*j => es@[i as int]));
                }
                encode_json_into(out, &es[i]);
                proof {
                    assert(items.take(i + 1) =~= items.take(i as int).push(items[i as int]));
                    assert(items[i as int] == jview(es@[i as int]));
                    lemma_enc_items_snoc(items.take(i as int), items[i as int]);
                    assert(out@ =~= old(out)@ + seq!['['] + enc_items(items.take(i + 1)));
                }
                i += 1;
            }
            out.push(']');
            proof {
                assert(items.take(es@.len() as int) =~= items);
                assert(out@ =~= old(out)@ + enc(j@));
            }
        },
        Json::Obj(fs) => {
            let ghost fields = j@->Obj_0;
            out.push('{');
            let mut i: usize = 0;
            while i < fs.len()
                invariant
                    i <= fs@.len(),
                    *j == Json::Obj(*fs),
                    fields == jview(*j)->Obj_0,
                    fields.len() == fs@.len(),
                    forall|k: int|
                        0 <= k < fs@.len() ==> fields[k] == (
                        #[trigger] fs@[k].0@,
                        jview(fs@[k].1),
                        ),
                    out@ == old(out)@ + seq!['{'] + enc_fields(fields.take(i as int)),
                decreases fs@.len() - i,
            {
                if i > 0 {
                    out.push(',');
                }
                out.push('"');
                push_escaped(out, fs[i].0.as_slice());
                out.push('"');
                out.push(':');
                proof {
                    assert(decreases_to!(*j => *fs));
                    assert(decreases_to!(*fs => fs@));
                    assert(decreases_to!(fs@ => fs@[i as int]));
                    assert(decreases_to!(fs@[i as int] => fs@[i as int].1));
                    assert(decreases_to!(*j => fs@[i as int].1));
                }
                encode_json_into(out, &fs[i].1);
                proof {
                    assert(fields.take(i + 1) =~= fields.take(i as int).push(fields[i as int]));
                    assert(fields[i as int].0 == fs@[i as int].0@);
                    assert(fields[i as int].1 == jview(fs@[i as int].1));
                    assert(enc_field(fields[i as int]) == seq!['"'] + enc_str(fs@[i as int].0@)
                        + seq!['"', ':'] + enc(jview(fs@[i as int].1)));
                    lemma_enc_fields_snoc(fields.take(i as int), fields[i as int]);
                    assert(out@ =~= old(out)@ + seq!['{'] + enc_fields(fields.take(i + 1)));
                }
                i += 1;
            }
            out.push('}');
            proof {
                assert(fields.take(fs@.len() as int) =~= fields);
                assert(out@ =~= old(out)@ + enc(j@));
            }
        },
    }
}

/// The compact text encoding of `j`.
pub fn encode_json(j: &Json) -> (r: Vec<char>)
    ensures
        r@ == enc(j@),
{
    let mut out: Vec<char> = Vec::new();
    encode_json_into(&mut out, j);
    proof {
        assert(out@ =~= enc(j@));
    }
    out
}


/// Whether `v` is a code point that a character can hold.
pub open spec fn valid_code(v: u32) -> bool {
    v < 0xD800 || (0xE000 <= v && v <= 0x10FFFF)
}

/// Relies on `char::from_u32`: it returns the character of every valid code
/// point (not a surrogate, not above the maximum) and nothing otherwise.
#[verifier::external_body]
fn char_from_u32(v: u32) -> (r: Option<char>)
    ensures
        r is Some <==> valid_code(v),
        r matches Some(c) ==> (c as u32) == v,
{
    char::from_u32(v)
}

/// The character a short escape stands for.
pub open spec fn esc_short(e: char) -> Option<char> {
    if e == '"' {
        Some('"')
    } else if e == '\\' {
        Some('\\')
    } else if e == '/' {
        Some('/')
    } else if e == 'b' {
        Some('\u{8}')
    } else if e == 'f' {
        Some('\u{c}')
    } else if e == 'n' {
        Some('\n')
    } else if e == 'r' {
        Some('\r')
    } else if e == 't' {
        Some('\t')
    } else {
        None
    }
}

/// The value of a hexadecimal digit character.
pub open spec fn hex_val(c: char) -> Option<u32> {
    if is_digit(c) {
        Some(((c as u32) - ('0' as u32)) as u32)
    } else if ('a' as u32) <= (c as u32) && (c as u32) <= ('f' as u32) {
        Some(((c as u32) - ('a' as u32) + 10) as u32)
    } else if ('A' as u32) <= (c as u32) && (c as u32) <= ('F' as u32) {
        Some(((c as u32) - ('A' as u32) + 10) as u32)
    } else {
        None
    }
}

/// Four hexadecimal digits at `i`, combined.
pub open spec fn p_hex4(s: Seq<char>, i: int) -> Option<u32> {
    if 0 <= i && i + 4 <= s.len() {
        match (hex_val(s[i]), hex_val(s[i + 1]), hex_val(s[i + 2]), hex_val(s[i + 3])) {
            (Some(a), Some(b), Some(c), Some(d)) => Some(
                (a * 4096 + b * 256 + c * 16 + d) as u32,
            ),
            _ => None,
        }
    } else {
        None
    }
}

/// Parses string content from `i` (after the opening quote) onto `acc`,
/// up to and including the closing quote.
pub open spec fn p_str(s: Seq<char>, i: int, acc: Seq<char>) -> Option<(Seq<char>, int)>
    decreases s.len() - i,
{
    if !(0 <= i < s.len()) {
        None
    } else {
        let c = s[i];
        if c == '"' {
            Some((acc, i + 1))
        } else if c == '\\' {
            if i + 1 < s.len() {
                let e = s[i + 1];
                if e == 'u' {
                    match p_hex4(s, i + 2) {
                        Some(v) => {
                            if 0xD800 <= v && v < 0xDC00 {
                                if i + 7 < s.len() && s[i + 6] == '\\' && s[i + 7] == 'u' {
                                    match p_hex4(s, i + 8) {
                                        Some(w) => {
                                            if 0xDC00 <= w && w < 0xE000 {
                                                p_str(
                                                    s,
                                                    i + 12,
                                                    acc.push(
                                                        (0x10000 + (v - 0xD800) * 0x400 + (w
                                                            - 0xDC00)) as char,
                                                    ),
                                                )
                                            } else {
                                                None
                                            }
                                        },
                                        None => None,
                                    }
                                } else {
                                    None
                                }
                            } else if 0xDC00 <= v && v < 0xE000 {
                                None
                            } else {
                                p_str(s, i + 6, acc.push(v as char))
                            }
                        },
                        None => None,
                    }
                } else {
                    match esc_short(e) {
                        Some(c2) => p_str(s, i + 2, acc.push(c2)),
                        None => None,
                    }
                }
            } else {
                None
            }
        } else if (c as u32) < 32 {
            None
        } else {
            p_str(s, i + 1, acc.push(c))
        }
    }
}

/// The end of the maximal run of number characters from `i`.
pub open spec fn num_end(s: Seq<char>, i: int) -> int
    decreases s.len() - i,
{
    if 0 <= i < s.len() && is_num_char(s[i]) {
        num_end(s, i + 1)
    } else {
        i
    }
}

/// The run of number characters from `i` stays within the input.
pub proof fn lemma_num_end(s: Seq<char>, i: int)
    requires
        0 <= i <= s.len(),
    ensures
        i <= num_end(s, i) <= s.len(),
    decreases s.len() - i,
{
    if i < s.len() && is_num_char(s[i]) {
        lemma_num_end(s, i + 1);
    }
}

/// Inter-token whitespace of the wire format.
pub open spec fn is_ws(c: char) -> bool {
    c == ' ' || c == '\t' || c == '\n' || c == '\r'
}

/// The end of the run of whitespace from `i`.
pub open spec fn ws_end(s: Seq<char>, i: int) -> int
    decreases s.len() - i,
{
    if 0 <= i < s.len() && is_ws(s[i]) {
        ws_end(s, i + 1)
    } else {
        i
    }
}

/// The whitespace run stays within the input.
pub proof fn lemma_ws_end(s: Seq<char>, i: int)
    requires
        0 <= i <= s.len(),
    ensures
        i <= ws_end(s, i) <= s.len(),
    decreases s.len() - i,
{
    if i < s.len() && is_ws(s[i]) {
        lemma_ws_end(s, i + 1);
    }
}

/// Parses one value from `i`, skipping leading whitespace. The fuel bounds
/// the work; the parser of a line is given fuel that no value a line can
/// hold runs out of.
pub open spec fn pv(s: Seq<char>, i: int, f: nat) -> Option<(JVal, int)>
    decreases f,
{
    if f == 0 {
        None
    } else if !(0 <= ws_end(s, i) < s.len()) {
        None
    } else {
        let j = ws_end(s, i);
        let c = s[j];
        if c == 'n' {
            if j + 4 <= s.len() && s.subrange(j, j + 4) == "null"@ {
                Some((JVal::Null, j + 4))
            } else {
                None
            }
        } else if c == 't' {
            if j + 4 <= s.len() && s.subrange(j, j + 4) == "true"@ {
                Some((JVal::Bool(true), j + 4))
            } else {
                None
            }
        } else if c == 'f' {
            if j + 5 <= s.len() && s.subrange(j, j + 5) == "false"@ {
                Some((JVal::Bool(false), j + 5))
            } else {
                None
            }
        } else if c == '"' {
            match p_str(s, j + 1, Seq::empty()) {
                Some((cs, n)) => Some((JVal::Str(cs), n)),
                None => None,
            }
        } else if c == '[' {
            if ws_end(s, j + 1) < s.len() && s[ws_end(s, j + 1)] == ']' {
                Some((JVal::Arr(Seq::empty()), ws_end(s, j + 1) + 1))
            } else {
                match pv(s, j + 1, (f - 1) as nat) {
                    Some((v, n)) => p_arr_rest(s, n, (f - 1) as nat, seq![v]),
                    None => None,
                }
            }
        } else if c == '{' {
            if ws_end(s, j + 1) < s.len() && s[ws_end(s, j + 1)] == '}' {
                Some((JVal::Obj(Seq::empty()), ws_end(s, j + 1) + 1))
            } else {
                match p_field(s, j + 1, (f - 1) as nat) {
                    Some((fld, n)) => p_obj_rest(s, n, (f - 1) as nat, seq![fld]),
                    None => None,
                }
            }
        } else if c == '-' || is_digit(c) {
            if num_wf(s.subrange(j, num_end(s, j))) {
                Some((JVal::Num(s.subrange(j, num_end(s, j))), num_end(s, j)))
            } else {
                None
            }
        } else {
            None
        }
    }
}

/// Parses the continuation of an array at `i`: a comma and a value, or the
/// closing bracket.
pub open spec fn p_arr_rest(s: Seq<char>, i: int, f: nat, acc: Seq<JVal>) -> Option<(JVal, int)>
    decreases f,
{
    if f == 0 {
        None
    } else if !(0 <= ws_end(s, i) < s.len()) {
        None
    } else if s[ws_end(s, i)] == ']' {
        Some((JVal::Arr(acc), ws_end(s, i) + 1))
    } else if s[ws_end(s, i)] == ',' {
        match pv(s, ws_end(s, i) + 1, (f - 1) as nat) {
            Some((v, n)) => p_arr_rest(s, n, (f - 1) as nat, acc.push(v)),
            None => None,
        }
    } else {
        None
    }
}

/// Parses one object field at `i`: a quoted key, a colon, a value.
pub open spec fn p_field(s: Seq<char>, i: int, f: nat) -> Option<((Seq<char>, JVal), int)>
    decreases f,
{
    if f == 0 {
        None
    } else if 0 <= ws_end(s, i) < s.len() && s[ws_end(s, i)] == '"' {
        match p_str(s, ws_end(s, i) + 1, Seq::empty()) {
            Some((key, n)) => {
                if ws_end(s, n) < s.len() && s[ws_end(s, n)] == ':' {
                    match pv(s, ws_end(s, n) + 1, (f - 1) as nat) {
                        Some((v, e)) => Some(((key, v), e)),
                        None => None,
                    }
                } else {
                    None
                }
            },
            None => None,
        }
    } else {
        None
    }
}

/// Parses the continuation of an object at `i`: a comma and a field, or the
/// closing brace.
pub open spec fn p_obj_rest(
    s: Seq<char>,
    i: int,
    f: nat,
    acc: Seq<(Seq<char>, JVal)>,
) -> Option<(JVal, int)>
    decreases f,
{
    if f == 0 {
        None
    } else if !(0 <= ws_end(s, i) < s.len()) {
        None
    } else if s[ws_end(s, i)] == '}' {
        Some((JVal::Obj(acc), ws_end(s, i) + 1))
    } else if s[ws_end(s, i)] == ',' {
        match p_field(s, ws_end(s, i) + 1, (f - 1) as nat) {
            Some((fld, n)) => p_obj_rest(s, n, (f - 1) as nat, acc.push(fld)),
            None => None,
        }
    } else {
        None
    }
}

/// One whole line as a value, with nothing but whitespace after it.
pub open spec fn spec_parse_json(s: Seq<char>) -> Option<JVal> {
    match pv(s, 0, (2 * s.len() + 2) as nat) {
        Some((v, n)) => if ws_end(s, n) == s.len() {
            Some(v)
        } else {
            None
        },
        None => None,
    }
}


/// Whether the word `w` stands at `i` in `s`.
fn match_lit(s: &[char], i: usize, w: &[char]) -> (r: bool)
    requires
        i <= s@.len(),
    ensures
        r == (i + w@.len() <= s@.len() && s@.subrange(i as int, i + w@.len()) == w@),
{
    let n = s.len();
    if n - i < w.len() {
        return false;
    }
    let mut k: usize = 0;
    let mut j = i;
    while k < w.len()
        invariant
            j == i + k,
            s@.len() == n,
            i + w@.len() <= s@.len(),
            k <= w@.len(),
            forall|t: int| 0 <= t < k ==> s@[i + t] == w@[t],
        decreases w@.len() - k,
    {
        if s[j] != w[k] {
            proof {
                assert(s@.subrange(i as int, i + w@.len())[k as int] != w@[k as int]);
            }
            return false;
        }
        k += 1;
        j += 1;
    }
    proof {
        assert(s@.subrange(i as int, i + w@.len()) =~= w@);
    }
    true
}

/// The value of a hexadecimal digit character.
fn hex_val_exec(c: char) -> (r: Option<u32>)
    ensures
        r == hex_val(c),
{
    let u = c as u32;
    if ('0' as u32) <= u && u <= ('9' as u32) {
        Some(u - ('0' as u32))
    } else if ('a' as u32) <= u && u <= ('f' as u32) {
        Some(u - ('a' as u32) + 10)
    } else if ('A' as u32) <= u && u <= ('F' as u32) {
        Some(u - ('A' as u32) + 10)
    } else {
        None
    }
}

/// Four hexadecimal digits at `i`, combined.
fn parse_hex4(s: &[char], i: usize) -> (r: Option<u32>)
    requires
        i <= s@.len(),
    ensures
        r == p_hex4(s@, i as int),
        r matches Some(v) ==> v <= 0xFFFF,
{
    if s.len() - i < 4 {
        return None;
    }
    let a = hex_val_exec(s[i]);
    let b = hex_val_exec(s[i + 1]);
    let c = hex_val_exec(s[i + 2]);
    let d = hex_val_exec(s[i + 3]);
    match (a, b, c, d) {
        (Some(a), Some(b), Some(c), Some(d)) => {
            proof {
                assert(a <= 15 && b <= 15 && c <= 15 && d <= 15);
            }
            Some(a * 4096 + b * 256 + c * 16 + d)
        },
        _ => None,
    }
}

/// Parses string content from `i` (after the opening quote), up to and
/// including the closing quote.
fn parse_string(s: &[char], i: usize) -> (r: Option<(Vec<char>, usize)>)
    requires
        i <= s@.len(),
    ensures
        match r {
            Some((cs, n)) => p_str(s@, i as int, Seq::empty()) == Some((cs@, n as int)) && i < n
                <= s@.len(),
            None => p_str(s@, i as int, Seq::empty()) is None,
        },
{
    let mut acc: Vec<char> = Vec::new();
    let mut k = i;
    loop
        invariant
            i <= k <= s@.len(),
            p_str(s@, i as int, Seq::empty()) == p_str(s@, k as int, acc@),
        decreases s@.len() - k,
    {
        if k >= s.len() {
            return None;
        }
        let c = s[k];
        if c == '"' {
            return Some((acc, k + 1));
        } else if c == '\\' {
            if s.len() - k < 2 {
                return None;
            }
            let e = s[k + 1];
            if e == 'u' {
                match parse_hex4(s, k + 2) {
                    None => {
                        return None;
                    },
                    Some(v) => {
                        if 0xD800 <= v && v < 0xDC00 {
                            if s.len() - k < 8 || !(s[k + 6] == '\\' && s[k + 7] == 'u') {
                                return None;
                            }
                            match parse_hex4(s, k + 8) {
                                None => {
                                    return None;
                                },
                                Some(w) => {
                                    if !(0xDC00 <= w && w < 0xE000) {
                                        return None;
                                    }
                                    let code: u32 = 0x10000 + (v - 0xD800) * 0x400 + (w - 0xDC00);
                                    match char_from_u32(code) {
                                        Some(c2) => {
                                            proof {
                                                vstd::utf8::char_u32_cast(c2, c2 as u32);
                                            }
                                            acc.push(c2);
                                            k = k + 12;
                                        },
                                        None => {
                                            proof {
                                                assert(false);
                                            }
                                            return None;
                                        },
                                    }
                                },
                            }
                        } else if 0xDC00 <= v && v < 0xE000 {
                            return None;
                        } else {
                            match char_from_u32(v) {
                                Some(c2) => {
                                    proof {
                                        vstd::utf8::char_u32_cast(c2, c2 as u32);
                                    }
                                    acc.push(c2);
                                    k = k + 6;
                                },
                                None => {
                                    proof {
                                        assert(false);
                                    }
                                    return None;
                                },
                            }
                        }
                    },
                }
            } else if e == '"' || e == '/' || e == '\\' || e == 'b' || e == 'f' || e == 'n' || e
                == 'r' || e == 't' {
                let c2 = if e == 'b' {
                    '\u{8}'
                } else if e == 'f' {
                    '\u{c}'
                } else if e == 'n' {
                    '\n'
                } else if e == 'r' {
                    '\r'
                } else if e == 't' {
                    '\t'
                } else {
                    e
                };
                proof {
                    assert(esc_short(e) == Some(c2));
                }
                acc.push(c2);
                k = k + 2;
            } else {
                proof {
                    assert(esc_short(e) is None);
                }
                return None;
            }
        } else if (c as u32) < 32 {
            return None;
        } else {
            acc.push(c);
            k = k + 1;
        }
    }
}

/// Whether `c` may appear in a number token.
fn is_num_char_exec(c: char) -> (r: bool)
    ensures
        r == is_num_char(c),
{
    let u = c as u32;
    (('0' as u32) <= u && u <= ('9' as u32)) || c == '-' || c == '+' || c == '.' || c == 'e' || c
        == 'E'
}

/// The end of the maximal run of number characters from `i`.
fn num_end_exec(s: &[char], i: usize) -> (r: usize)
    requires
        i <= s@.len(),
    ensures
        r == num_end(s@, i as int),
        i <= r <= s@.len(),
{
    let mut k = i;
    loop
        invariant
            i <= k <= s@.len(),
            num_end(s@, i as int) == num_end(s@, k as int),
        decreases s@.len() - k,
    {
        if k >= s.len() {
            return k;
        }
        if !is_num_char_exec(s[k]) {
            return k;
        }
        k = k + 1;
    }
}

/// Whether `c` is a decimal digit.
fn is_digit_exec(c: char) -> (r: bool)
    ensures
        r == is_digit(c),
{
    let u = c as u32;
    ('0' as u32) <= u && u <= ('9' as u32)
}

/// The end of the run of decimal digits from `i`.
fn digits_end_exec(d: &[char], i: usize) -> (r: usize)
    requires
        i <= d@.len(),
    ensures
        r == digits_end(d@, i as int),
        i <= r <= d@.len(),
{
    let mut k = i;
    loop
        invariant
            i <= k <= d@.len(),
            digits_end(d@, i as int) == digits_end(d@, k as int),
        decreases d@.len() - k,
    {
        if k >= d.len() {
            return k;
        }
        if !is_digit_exec(d[k]) {
            return k;
        }
        k = k + 1;
    }
}

/// Whether `d` is a well-formed number token.
fn num_wf_exec(d: &[char]) -> (r: bool)
    ensures
        r == num_wf(d@),
{
    let i0: usize = if d.len() > 0 && d[0] == '-' {
        1
    } else {
        0
    };
    if i0 >= d.len() {
        return false;
    }
    if !is_digit_exec(d[i0]) {
        return false;
    }
    let ie: usize = if d[i0] == '0' {
        i0 + 1
    } else {
        digits_end_exec(d, i0)
    };
    proof {
        assert(ie == num_int_end(d@, i0 as int));
    }
    let fe: usize = if ie < d.len() && d[ie] == '.' {
        let z = digits_end_exec(d, ie + 1);
        if z > ie + 1 {
            z
        } else {
            proof {
                assert(num_frac_end(d@, ie as int) == -1);
                assert(num_exp_end(d@, -1) == -1);
            }
            return false;
        }
    } else {
        ie
    };
    proof {
        assert(fe == num_frac_end(d@, ie as int));
    }
    if fe < d.len() && (d[fe] == 'e' || d[fe] == 'E') {
        let x: usize = if fe + 1 < d.len() && (d[fe + 1] == '+' || d[fe + 1] == '-') {
            fe + 2
        } else {
            fe + 1
        };
        let z = digits_end_exec(d, if x <= d.len() {
            x
        } else {
            d.len()
        });
        proof {
            assert(x <= d@.len() ==> z == digits_end(d@, x as int));
            assert(x > d@.len() ==> digits_end(d@, x as int) == x);
        }
        if x <= d.len() && z > x {
            proof {
                assert(num_exp_end(d@, fe as int) == z);
            }
            z == d.len()
        } else {
            proof {
                assert(num_exp_end(d@, fe as int) == -1 || num_exp_end(d@, fe as int) == x);
                assert(num_exp_end(d@, fe as int) != d@.len());
            }
            false
        }
    } else {
        fe == d.len()
    }
}

/// The end of the run of whitespace from `i`.
fn skip_ws(s: &[char], i: usize) -> (r: usize)
    requires
        i <= s@.len(),
    ensures
        r == ws_end(s@, i as int),
        i <= r <= s@.len(),
{
    let mut k = i;
    loop
        invariant
            i <= k <= s@.len(),
            ws_end(s@, i as int) == ws_end(s@, k as int),
        decreases s@.len() - k,
    {
        if k >= s.len() {
            return k;
        }
        let c = s[k];
        if !(c == ' ' || c == '\t' || c == '\n' || c == '\r') {
            return k;
        }
        k = k + 1;
    }
}

/// Parses one value from `i`, mirroring `pv` with the same fuel.
fn parse_value(s: &[char], i: usize, fuel: u128) -> (r: Option<(Json, usize)>)
    requires
        i <= s@.len(),
    ensures
        match r {
            Some((j, n)) => pv(s@, i as int, fuel as nat) == Some((j@, n as int)) && i <= n
                <= s@.len(),
            None => pv(s@, i as int, fuel as nat) is None,
        },
    decreases fuel,
{
    if fuel == 0 {
        return None;
    }
    let j = skip_ws(s, i);
    if j >= s.len() {
        return None;
    }
    let c = s[j];
    if c == 'n' {
        let w = lit_chars("null");
        proof {
            reveal_strlit("null");
        }
        if match_lit(s, j, w.as_slice()) {
            Some((Json::Null, j + 4))
        } else {
            None
        }
    } else if c == 't' {
        let w = lit_chars("true");
        proof {
            reveal_strlit("true");
        }
        if match_lit(s, j, w.as_slice()) {
            Some((Json::Bool(true), j + 4))
        } else {
            None
        }
    } else if c == 'f' {
        let w = lit_chars("false");
        proof {
            reveal_strlit("false");
        }
        if match_lit(s, j, w.as_slice()) {
            Some((Json::Bool(false), j + 5))
        } else {
            None
        }
    } else if c == '"' {
        match parse_string(s, j + 1) {
            Some((cs, n)) => Some((Json::Str(cs), n)),
            None => None,
        }
    } else if c == '[' {
        let k = skip_ws(s, j + 1);
        if k < s.len() && s[k] == ']' {
            let out = Json::Arr(Vec::new());
            proof {
                assert(out@->Arr_0 =~= Seq::<JVal>::empty());
            }
            Some((out, k + 1))
        } else {
            match parse_value(s, j + 1, fuel - 1) {
                None => None,
                Some((v0, n0)) => {
                    let ghost fv = fuel as nat;
                    let mut acc: Vec<Json> = Vec::new();
                    let ghost v0v = v0@;
                    acc.push(v0);
                    let ghost mut accv: Seq<JVal> = seq![v0v];
                    let mut cur = n0;
                    let mut fr = fuel - 1;
                    proof {
                        assert(pv(s@, i as int, fv) == p_arr_rest(
                            s@,
                            n0 as int,
                            (fv - 1) as nat,
                            seq![v0v],
                        ));
                    }
                    loop
                        invariant
                            i < cur <= s@.len(),
                            fr < fv,
                            fv == fuel as nat,
                            acc@.len() == accv.len(),
                            forall|t: int| 0 <= t < accv.len() ==> accv[t] == (
                            #[trigger] acc@[t])@,
                            pv(s@, i as int, fv) == p_arr_rest(s@, cur as int, fr as nat, accv),
                        decreases fr,
                    {
                        if fr == 0 {
                            return None;
                        }
                        let k = skip_ws(s, cur);
                        if k >= s.len() {
                            return None;
                        }
                        let ch = s[k];
                        if ch == ']' {
                            let out = Json::Arr(acc);
                            proof {
                                assert(out@->Arr_0 =~= accv);
                            }
                            return Some((out, k + 1));
                        } else if ch == ',' {
                            match parse_value(s, k + 1, fr - 1) {
                                None => {
                                    return None;
                                },
                                Some((v, n)) => {
                                    proof {
                                        accv = accv.push(v@);
                                    }
                                    acc.push(v);
                                    cur = n;
                                    fr = fr - 1;
                                },
                            }
                        } else {
                            return None;
                        }
                    }
                },
            }
        }
    } else if c == '{' {
        let k = skip_ws(s, j + 1);
        if k < s.len() && s[k] == '}' {
            let out = Json::Obj(Vec::new());
            proof {
                assert(out@->Obj_0 =~= Seq::<(Seq<char>, JVal)>::empty());
            }
            Some((out, k + 1))
        } else {
            match parse_field(s, j + 1, fuel - 1) {
                None => None,
                Some(((k0, v0), n0)) => {
                    let ghost fv = fuel as nat;
                    let mut acc: Vec<(Vec<char>, Json)> = Vec::new();
                    let ghost f0v = (k0@, v0@);
                    acc.push((k0, v0));
                    let ghost mut accv: Seq<(Seq<char>, JVal)> = seq![f0v];
                    let mut cur = n0;
                    let mut fr = fuel - 1;
                    proof {
                        assert(pv(s@, i as int, fv) == p_obj_rest(
                            s@,
                            n0 as int,
                            (fv - 1) as nat,
                            seq![f0v],
                        ));
                    }
                    loop
                        invariant
                            i < cur <= s@.len(),
                            fr < fv,
                            fv == fuel as nat,
                            acc@.len() == accv.len(),
                            forall|t: int|
                                0 <= t < accv.len() ==> accv[t] == ((#[trigger] acc@[t]).0@, acc@[t].1@),
                            pv(s@, i as int, fv) == p_obj_rest(s@, cur as int, fr as nat, accv),
                        decreases fr,
                    {
                        if fr == 0 {
                            return None;
                        }
                        let k = skip_ws(s, cur);
                        if k >= s.len() {
                            return None;
                        }
                        let ch = s[k];
                        if ch == '}' {
                            let out = Json::Obj(acc);
                            proof {
                                assert(out@->Obj_0 =~= accv);
                            }
                            return Some((out, k + 1));
                        } else if ch == ',' {
                            match parse_field(s, k + 1, fr - 1) {
                                None => {
                                    return None;
                                },
                                Some(((k2, v2), n)) => {
                                    proof {
                                        accv = accv.push((k2@, v2@));
                                    }
                                    acc.push((k2, v2));
                                    cur = n;
                                    fr = fr - 1;
                                },
                            }
                        } else {
                            return None;
                        }
                    }
                },
            }
        }
    } else if c == '-' || is_num_char_exec(c) && !(c == '+' || c == '.' || c == 'e' || c == 'E') {
        let e = num_end_exec(s, j);
        let mut d: Vec<char> = Vec::new();
        let mut k = j;
        while k < e
            invariant
                j <= k <= e <= s@.len(),
                d@ == s@.subrange(j as int, k as int),
            decreases e - k,
        {
            d.push(s[k]);
            proof {
                assert(d@ =~= s@.subrange(j as int, k + 1));
            }
            k += 1;
        }
        proof {
            assert(is_digit(c) || c == '-');
            assert(is_num_char(s@[j as int]));
            lemma_num_end(s@, j + 1);
            assert(num_end(s@, j as int) > j);
        }
        if num_wf_exec(d.as_slice()) {
            Some((Json::Num(d), e))
        } else {
            None
        }
    } else {
        None
    }
}

/// Parses one object field from `i`, mirroring `p_field` with the same
/// fuel.
fn parse_field(s: &[char], i: usize, fuel: u128) -> (r: Option<((Vec<char>, Json), usize)>)
    requires
        i <= s@.len(),
    ensures
        match r {
            Some(((key, v), n)) => p_field(s@, i as int, fuel as nat) == Some(
                ((key@, v@), n as int),
            ) && i <= n <= s@.len(),
            None => p_field(s@, i as int, fuel as nat) is None,
        },
    decreases fuel,
{
    if fuel == 0 {
        return None;
    }
    let j = skip_ws(s, i);
    if j >= s.len() || s[j] != '"' {
        return None;
    }
    match parse_string(s, j + 1) {
        None => None,
        Some((key, n)) => {
            let m = skip_ws(s, n);
            if m >= s.len() || s[m] != ':' {
                return None;
            }
            match parse_value(s, m + 1, fuel - 1) {
                None => None,
                Some((v, e)) => Some(((key, v), e)),
            }
        },
    }
}

/// Parses one whole line as a value, with nothing but whitespace after it.
pub fn parse_json(s: &[char]) -> (r: Option<Json>)
    ensures
        match r {
            Some(j) => spec_parse_json(s@) == Some(j@),
            None => spec_parse_json(s@) is None,
        },
{
    let fuel: u128 = 2 * (s.len() as u128) + 2;
    match parse_value(s, 0, fuel) {
        Some((j, n)) => {
            let e = skip_ws(s, n);
            if e == s.len() {
                Some(j)
            } else {
                None
            }
        },
        None => None,
    }
}


/// A deep copy of `j`.
pub fn clone_json(j: &Json) -> (r: Json)
    ensures
        r@ == j@,
    decreases *j,
{
    match j {
        Json::Null => Json::Null,
        Json::Bool(b) => Json::Bool(*b),
        Json::Num(d) => {
            let mut x: Vec<char> = Vec::new();
            push_chars(&mut x, d.as_slice());
            Json::Num(x)
        },
        Json::Str(c) => {
            let mut x: Vec<char> = Vec::new();
            push_chars(&mut x, c.as_slice());
            Json::Str(x)
        },
        Json::Arr(es) => {
            let mut out: Vec<Json> = Vec::new();
            let mut i: usize = 0;
            while i < es.len()
                invariant
                    i <= es@.len(),
                    *j == Json::Arr(*es),
                    out@.len() == i,
                    forall|k: int| 0 <= k < i ==> (#[trigger] out@[k])@ == jview(es@[k]),
                decreases es@.len() - i,
            {
                proof {
                    assert(*es == j->Arr_0);
                    assert(decreases_to!(*j => j->Arr_0));
                    assert(decreases_to!(*es => es@));
                    assert(decreases_to!(es@ => es@[i as int]));
                    assert(decreases_to!(*j => es@[i as int]));
                }
                let c = clone_json(&es[i]);
                out.push(c);
                i += 1;
            }
            let r = Json::Arr(out);
            proof {
                assert(r@->Arr_0 =~= jview(*j)->Arr_0);
            }
            r
        },
        Json::Obj(fs) => {
            let mut out: Vec<(Vec<char>, Json)> = Vec::new();
            let mut i: usize = 0;
            while i < fs.len()
                invariant
                    i <= fs@.len(),
                    *j == Json::Obj(*fs),
                    out@.len() == i,
                    forall|k: int|
                        0 <= k < i ==> (#[trigger] out@[k]).0@ == fs@[k].0@ && out@[k].1@ == jview(
                            fs@[k].1,
                        ),
                decreases fs@.len() - i,
            {
                proof {
                    assert(*fs == j->Obj_0);
                    assert(decreases_to!(*j => j->Obj_0));
                    assert(decreases_to!(*fs => fs@));
                    assert(decreases_to!(fs@ => fs@[i as int]));
                    assert(decreases_to!(fs@[i as int] => fs@[i as int].1));
                    assert(decreases_to!(*j => fs@[i as int].1));
                }
                let mut key: Vec<char> = Vec::new();
                push_chars(&mut key, fs[i].0.as_slice());
                let v = clone_json(&fs[i].1);
                out.push((key, v));
                i += 1;
            }
            let r = Json::Obj(out);
            proof {
                assert(r@->Obj_0 =~= jview(*j)->Obj_0);
            }
            r
        },
    }
}

/// The value of the first field named `key`.
pub open spec fn obj_get(fs: Seq<(Seq<char>, JVal)>, key: Seq<char>) -> Option<JVal>
    decreases fs.len(),
{
    if fs.len() == 0 {
        None
    } else if fs[0].0 == key {
        Some(fs[0].1)
    } else {
        obj_get(fs.drop_first(), key)
    }
}

/// The first field named `key` decides the lookup.
pub proof fn lemma_obj_get_first(fs: Seq<(Seq<char>, JVal)>, key: Seq<char>, ix: int)
    requires
        0 <= ix < fs.len(),
        fs[ix].0 == key,
        forall|t: int| 0 <= t < ix ==> (#[trigger] fs[t]).0 != key,
    ensures
        obj_get(fs, key) == Some(fs[ix].1),
    decreases fs.len(),
{
    if ix > 0 {
        lemma_obj_get_first(fs.drop_first(), key, ix - 1);
    }
}

/// Without a field named `key`, the lookup finds nothing.
pub proof fn lemma_obj_get_none(fs: Seq<(Seq<char>, JVal)>, key: Seq<char>)
    requires
        forall|t: int| 0 <= t < fs.len() ==> (#[trigger] fs[t]).0 != key,
    ensures
        obj_get(fs, key) is None,
    decreases fs.len(),
{
    if fs.len() > 0 {
        lemma_obj_get_none(fs.drop_first(), key);
    }
}

/// The index of the first field of `fs` named `key`, when one exists.
pub fn obj_find(fs: &Vec<(Vec<char>, Json)>, key: &[char]) -> (r: Option<usize>)
    ensures
        match r {
            Some(ix) => ix < fs@.len() && fs@[ix as int].0@ == key@ && obj_get(
                fields_view(*fs),
                key@,
            ) == Some(jview(fs@[ix as int].1)),
            None => obj_get(fields_view(*fs), key@) is None,
        },
{
    let mut i: usize = 0;
    while i < fs.len()
        invariant
            i <= fs@.len(),
            forall|t: int| 0 <= t < i ==> (#[trigger] fs@[t]).0@ != key@,
        decreases fs@.len() - i,
    {
        if crate::text::chars_eq(fs[i].0.as_slice(), key) {
            proof {
                lemma_obj_get_first(fields_view(*fs), key@, i as int);
            }
            return Some(i);
        }
        i += 1;
    }
    proof {
        lemma_obj_get_none(fields_view(*fs), key@);
    }
    None
}

/// The fields of an object value, as their models.
pub open spec fn fields_view(fs: Vec<(Vec<char>, Json)>) -> Seq<(Seq<char>, JVal)> {
    jview(Json::Obj(fs))->Obj_0
}


/// The parsing fuel a value needs.
pub open spec fn jfuel(v: JVal) -> nat
    decreases v,
{
    match v {
        JVal::Null => 1,
        JVal::Bool(_) => 1,
        JVal::Num(_) => 1,
        JVal::Str(_) => 1,
        JVal::Arr(es) => 2 + jfuel_items(es),
        JVal::Obj(fs) => 2 + jfuel_fields(fs),
    }
}

/// The parsing fuel a run of array items needs.
pub open spec fn jfuel_items(items: Seq<JVal>) -> nat
    decreases items,
{
    if items.len() == 0 {
        0
    } else {
        jfuel(items[0]) + 1 + jfuel_items(items.drop_first())
    }
}

/// The parsing fuel a run of object fields needs.
pub open spec fn jfuel_fields(fields: Seq<(Seq<char>, JVal)>) -> nat
    decreases fields,
{
    if fields.len() == 0 {
        0
    } else {
        jfuel_field(fields[0]) + 1 + jfuel_fields(fields.drop_first())
    }
}

/// The parsing fuel one object field needs.
pub open spec fn jfuel_field(field: (Seq<char>, JVal)) -> nat
    decreases field,
{
    jfuel(field.1) + 1
}

/// The encoding of the rest of an array after some items: for each further
/// item a comma and its encoding, then the closing bracket.
pub open spec fn arr_tail_enc(rem: Seq<JVal>) -> Seq<char>
    decreases rem,
{
    if rem.len() == 0 {
        seq![']']
    } else {
        seq![','] + enc(rem[0]) + arr_tail_enc(rem.drop_first())
    }
}

/// The encoding of the rest of an object after some fields.
pub open spec fn obj_tail_enc(rem: Seq<(Seq<char>, JVal)>) -> Seq<char>
    decreases rem,
{
    if rem.len() == 0 {
        seq!['}']
    } else {
        seq![','] + enc_field(rem[0]) + obj_tail_enc(rem.drop_first())
    }
}

/// A nonempty array's encoding splits into its first item and the tail form.
pub proof fn lemma_arr_split(items: Seq<JVal>)
    requires
        items.len() > 0,
    ensures
        enc_items(items) + seq![']'] == enc(items[0]) + arr_tail_enc(items.drop_first()),
    decreases items.len(),
{
    if items.len() == 1 {
        assert(arr_tail_enc(items.drop_first()) =~= seq![']']);
        assert(enc_items(items) + seq![']'] =~= enc(items[0]) + arr_tail_enc(items.drop_first()));
    } else {
        let df = items.drop_first();
        lemma_arr_split(df);
        assert(enc_items(df) + seq![']'] == enc(df[0]) + arr_tail_enc(df.drop_first()));
        assert(arr_tail_enc(df) == seq![','] + enc(df[0]) + arr_tail_enc(df.drop_first()));
        assert(enc_items(items) == enc(items[0]) + seq![','] + enc_items(df));
        assert(enc_items(items) + seq![']'] =~= enc(items[0]) + (seq![','] + (enc_items(df)
            + seq![']'])));
        assert(enc(items[0]) + (seq![','] + (enc(df[0]) + arr_tail_enc(df.drop_first()))) =~= enc(
            items[0],
        ) + arr_tail_enc(df));
    }
}

/// A nonempty object's encoding splits into its first field and the tail
/// form.
pub proof fn lemma_obj_split(fields: Seq<(Seq<char>, JVal)>)
    requires
        fields.len() > 0,
    ensures
        enc_fields(fields) + seq!['}'] == enc_field(fields[0]) + obj_tail_enc(fields.drop_first()),
    decreases fields.len(),
{
    if fields.len() == 1 {
        assert(obj_tail_enc(fields.drop_first()) =~= seq!['}']);
        assert(enc_fields(fields) + seq!['}'] =~= enc_field(fields[0]) + obj_tail_enc(
            fields.drop_first(),
        ));
    } else {
        let df = fields.drop_first();
        lemma_obj_split(df);
        assert(enc_fields(df) + seq!['}'] == enc_field(df[0]) + obj_tail_enc(df.drop_first()));
        assert(obj_tail_enc(df) == seq![','] + enc_field(df[0]) + obj_tail_enc(df.drop_first()));
        assert(enc_fields(fields) == enc_field(fields[0]) + seq![','] + enc_fields(df));
        assert(enc_fields(fields) + seq!['}'] =~= enc_field(fields[0]) + (seq![','] + (enc_fields(
            df,
        ) + seq!['}'])));
        assert(enc_field(fields[0]) + (seq![','] + (enc_field(df[0]) + obj_tail_enc(
            df.drop_first(),
        ))) =~= enc_field(fields[0]) + obj_tail_enc(df));
    }
}

/// An encoding is nonempty, needs fuel within twice its length, and never
/// begins with a closing token or a comma.
pub proof fn lemma_enc_shape(v: JVal)
    requires
        jwf(v),
    ensures
        1 <= enc(v).len(),
        jfuel(v) + 1 <= 2 * enc(v).len(),
        enc(v)[0] != ']' && enc(v)[0] != '}' && enc(v)[0] != ',',
        !is_ws(enc(v)[0]),
    decreases v,
{
    reveal_strlit("null");
    reveal_strlit("true");
    reveal_strlit("false");
    match v {
        JVal::Null => {},
        JVal::Bool(b) => {},
        JVal::Num(d) => {
            lemma_num_wf_chars(d);
            assert(is_num_char(d[0]));
            assert((' ' as u32) == 32 && ('\t' as u32) == 9 && ('\n' as u32) == 10 && ('\r'
                as u32) == 13);
        },
        JVal::Str(s) => {},
        JVal::Arr(es) => {
            lemma_items_shape(es);
        },
        JVal::Obj(fs) => {
            lemma_fields_shape(fs);
        },
    }
}

/// The fuel a run of items needs stays within twice its encoded length.
pub proof fn lemma_items_shape(items: Seq<JVal>)
    requires
        forall|k: int| 0 <= k < items.len() ==> jwf(#[trigger] items[k]),
    ensures
        jfuel_items(items) <= 2 * enc_items(items).len() + 1,
    decreases items,
{
    if items.len() == 0 {
    } else if items.len() == 1 {
        lemma_enc_shape(items[0]);
        assert(jfuel_items(items.drop_first()) == 0);
        assert(enc_items(items) == enc(items[0]));
        assert(jfuel_items(items) == jfuel(items[0]) + 1);
    } else {
        lemma_enc_shape(items[0]);
        assert(forall|k: int|
            0 <= k < items.drop_first().len() ==> jwf(#[trigger] items.drop_first()[k]));
        lemma_items_shape(items.drop_first());
        assert(enc_items(items).len() == enc(items[0]).len() + 1 + enc_items(
            items.drop_first(),
        ).len());
    }
}

/// The fuel a run of fields needs stays within twice its encoded length.
pub proof fn lemma_fields_shape(fields: Seq<(Seq<char>, JVal)>)
    requires
        forall|k: int| 0 <= k < fields.len() ==> jwf((#[trigger] fields[k]).1),
    ensures
        jfuel_fields(fields) <= 2 * enc_fields(fields).len() + 1,
    decreases fields,
{
    if fields.len() == 0 {
    } else if fields.len() == 1 {
        lemma_enc_shape(fields[0].1);
        assert(jfuel_fields(fields.drop_first()) == 0);
        assert(enc_fields(fields) == enc_field(fields[0]));
        assert(enc_field(fields[0]).len() >= enc(fields[0].1).len() + 3);
        assert(jfuel_field(fields[0]) == jfuel(fields[0].1) + 1);
        assert(jfuel_fields(fields) == jfuel(fields[0].1) + 2);
    } else {
        lemma_enc_shape(fields[0].1);
        assert(forall|k: int|
            0 <= k < fields.drop_first().len() ==> jwf((#[trigger] fields.drop_first()[k]).1));
        lemma_fields_shape(fields.drop_first());
        assert(jfuel_field(fields[0]) == jfuel(fields[0].1) + 1);
        assert(enc_field(fields[0]).len() >= enc(fields[0].1).len() + 3);
        assert(enc_fields(fields).len() == enc_field(fields[0]).len() + 1 + enc_fields(
            fields.drop_first(),
        ).len());
    }
}

/// A well-formed number token whose run ends at a boundary is scanned
/// exactly.
pub proof fn lemma_num_scan(s: Seq<char>, i: int, d: Seq<char>)
    requires
        0 <= i,
        i + d.len() <= s.len(),
        s.subrange(i, i + d.len()) == d,
        forall|k: int| 0 <= k < d.len() ==> is_num_char(#[trigger] d[k]),
        i + d.len() == s.len() || !is_num_char(s[i + d.len()]),
    ensures
        num_end(s, i) == i + d.len(),
    decreases d.len(),
{
    if d.len() == 0 {
    } else {
        assert(s[i] == s.subrange(i, i + d.len())[0]);
        assert(is_num_char(s[i]));
        assert(s.subrange(i + 1, i + d.len()) =~= d.drop_first());
        lemma_num_scan(s, i + 1, d.drop_first());
    }
}


/// A hexadecimal digit character reads back its value.
pub proof fn lemma_hex_digit_val(w: u32)
    requires
        w < 16,
    ensures
        hex_val(hex_digit(w)) == Some(w),
{
    if w < 10 {
        assert((((('0' as u32) + w) as char) as u32) == ('0' as u32) + w);
    } else {
        assert((((('a' as u32) + (w - 10)) as char) as u32) == ('a' as u32) + (w - 10));
    }
}

/// Escaped string content, followed by the closing quote, parses back to
/// the content.
#[verifier::rlimit(100)]
pub proof fn lemma_p_str_enc(s: Seq<char>, i: int, cs: Seq<char>, acc: Seq<char>)
    requires
        0 <= i,
        i + enc_str(cs).len() + 1 <= s.len(),
        s.subrange(i, i + enc_str(cs).len() + 1) == enc_str(cs) + seq!['"'],
    ensures
        p_str(s, i, acc) == Some((acc + cs, i + enc_str(cs).len() + 1)),
    decreases cs.len(),
{
    let n = enc_str(cs).len() as int;
    let whole = enc_str(cs) + seq!['"'];
    assert forall|k: int| 0 <= k < n + 1 implies s[i + k] == whole[k] by {
        assert(s.subrange(i, i + n + 1)[k] == s[i + k]);
    }
    if cs.len() == 0 {
        assert(whole[0] == '"');
        assert(s[i] == '"');
        assert(acc + cs =~= acc);
    } else {
        let c0 = cs[0];
        let e = esc_char(c0);
        let rest = cs.drop_first();
        assert(enc_str(cs) == e + enc_str(rest));
        let el = e.len() as int;
        let rl = enc_str(rest).len() as int;
        assert(n == el + rl);
        assert forall|k: int| 0 <= k < el implies s[i + k] == e[k] by {
            assert(whole[k] == (e + enc_str(rest))[k]);
        }
        assert forall|k: int|
            0 <= k < rl + 1 implies s.subrange(i + el, i + el + rl + 1)[k] == (enc_str(rest)
                + seq!['"'])[k] by {
            assert(s.subrange(i + el, i + el + rl + 1)[k] == s[i + el + k]);
            assert(s[i + el + k] == whole[el + k]);
            if k < rl {
                assert(whole[el + k] == (e + enc_str(rest))[el + k]);
                assert((e + enc_str(rest))[el + k] == enc_str(rest)[k]);
            } else {
                assert(whole[el + k] == '"');
            }
        }
        assert(s.subrange(i + el, i + el + rl + 1) =~= enc_str(rest) + seq!['"']);
        lemma_p_str_enc(s, i + el, rest, acc.push(c0));
        assert(acc.push(c0) + rest =~= acc + cs);
        let cu = c0 as u32;
        if c0 == '"' || c0 == '\\' || c0 == '\n' || c0 == '\r' || c0 == '\t' || cu == 8 || cu
            == 12 {
            assert(el == 2);
            assert(s[i] == e[0] && s[i + 1] == e[1]);
            assert(s[i] == '\\');
            let e2 = s[i + 1];
            if c0 == '"' {
                assert(e2 == '"');
            } else if c0 == '\\' {
                assert(e2 == '\\');
            } else if c0 == '\n' {
                assert(e2 == 'n');
            } else if c0 == '\r' {
                assert(e2 == 'r');
            } else if c0 == '\t' {
                assert(e2 == 't');
            } else if cu == 8 {
                assert(e2 == 'b');
                vstd::utf8::char_u32_cast(c0, cu);
                vstd::utf8::char_u32_cast('\u{8}', cu);
                assert(c0 == '\u{8}');
            } else {
                assert(e2 == 'f');
                vstd::utf8::char_u32_cast(c0, cu);
                vstd::utf8::char_u32_cast('\u{c}', cu);
                assert(c0 == '\u{c}');
            }
            assert(e2 != 'u');
            assert(esc_short(e2) == Some(c0));
            assert(p_str(s, i, acc) == p_str(s, i + 2, acc.push(c0)));
        } else if cu < 32 {
            assert(el == 6);
            assert(s[i] == e[0] && s[i + 1] == e[1] && s[i + 2] == e[2] && s[i + 3] == e[3] && s[i
                + 4] == e[4] && s[i + 5] == e[5]);
            assert(s[i] == '\\' && s[i + 1] == 'u' && s[i + 2] == '0' && s[i + 3] == '0');
            assert(s[i + 4] == hex_digit(cu / 16) && s[i + 5] == hex_digit(cu % 16));
            assert(hex_val('0') == Some(0u32));
            lemma_hex_digit_val(cu / 16);
            lemma_hex_digit_val(cu % 16);
            assert(p_hex4(s, i + 2) == Some(((cu / 16) * 16 + cu % 16) as u32));
            assert((cu / 16) * 16 + cu % 16 == cu);
            vstd::utf8::char_u32_cast(c0, cu);
            assert((cu as char) == c0);
            assert(p_str(s, i, acc) == p_str(s, i + 6, acc.push(c0)));
        } else {
            assert(el == 1);
            assert(s[i] == e[0]);
            assert(s[i] == c0);
            assert(c0 != '"' && c0 != '\\' && cu >= 32);
            assert(p_str(s, i, acc) == p_str(s, i + 1, acc.push(c0)));
        }
    }
}


/// A well-formed value's encoding parses back to exactly the value.
#[verifier::rlimit(100)]
pub proof fn lemma_pv_enc(s: Seq<char>, i: int, v: JVal, f: nat)
    requires
        jwf(v),
        0 <= i,
        i + enc(v).len() <= s.len(),
        s.subrange(i, i + enc(v).len()) == enc(v),
        v is Num ==> (i + enc(v).len() == s.len() || !is_num_char(s[i + enc(v).len()])),
        f >= jfuel(v),
    ensures
        pv(s, i, f) == Some((v, i + enc(v).len())),
    decreases v,
{
    lemma_enc_shape(v);
    let ln = enc(v).len() as int;
    assert forall|k: int| 0 <= k < ln implies s[i + k] == enc(v)[k] by {
        assert(s.subrange(i, i + ln)[k] == s[i + k]);
    }
    let c = s[i];
    assert(c == enc(v)[0]);
    assert(!is_ws(c));
    assert(ws_end(s, i) == i);
    match v {
        JVal::Null => {
            reveal_strlit("null");
            assert(c == 'n');
            assert(s.subrange(i, i + 4) =~= "null"@);
        },
        JVal::Bool(b) => {
            reveal_strlit("true");
            reveal_strlit("false");
            if b {
                assert(c == 't');
                assert(s.subrange(i, i + 4) =~= "true"@);
            } else {
                assert(c == 'f');
                assert(s.subrange(i, i + 5) =~= "false"@);
            }
        },
        JVal::Num(d) => {
            lemma_num_wf_chars(d);
            assert(c == d[0]);
            assert(c == '-' || is_digit(c));
            assert(c != 'n' && c != 't' && c != 'f' && c != '"' && c != '[' && c != '{');
            assert(s.subrange(i, i + d.len()) =~= d);
            lemma_num_scan(s, i, d);
            assert(s.subrange(i, num_end(s, i)) =~= d);
        },
        JVal::Str(cs) => {
            assert(c == '"');
            let el = enc_str(cs).len() as int;
            assert forall|k: int|
                0 <= k < el + 1 implies s.subrange(i + 1, i + 1 + el + 1)[k] == (enc_str(cs)
                    + seq!['"'])[k] by {
                assert(s.subrange(i + 1, i + 1 + el + 1)[k] == s[i + 1 + k]);
                assert(s[i + 1 + k] == enc(v)[1 + k]);
            }
            assert(s.subrange(i + 1, i + 1 + el + 1) =~= enc_str(cs) + seq!['"']);
            lemma_p_str_enc(s, i + 1, cs, Seq::empty());
            assert(Seq::empty() + cs =~= cs);
        },
        JVal::Arr(es) => {
            assert(c == '[');
            if es.len() == 0 {
                assert(enc_items(es) == Seq::<char>::empty());
                assert(enc(v) =~= seq!['[', ']']);
                assert(s[i + 1] == ']');
                assert(!is_ws(']'));
                assert(ws_end(s, i + 1) == i + 1);
                assert(Seq::empty() =~= es);
            } else {
                assert(forall|k: int| 0 <= k < es.len() ==> jwf(#[trigger] es[k]));
                let e0 = es[0];
                let df = es.drop_first();
                lemma_arr_split(es);
                lemma_enc_shape(e0);
                let l0 = enc(e0).len() as int;
                let tl = arr_tail_enc(df).len() as int;
                assert(enc(v) =~= seq!['['] + (enc(es[0]) + arr_tail_enc(df)));
                assert(ln == 1 + l0 + tl);
                assert(s.subrange(i, i + ln)[1] == s[i + 1]);
                assert(enc(v)[1] == (enc(e0) + arr_tail_enc(df))[0]);
                assert(s[i + 1] == enc(e0)[0]);
                assert(!is_ws(s[i + 1]));
                assert(ws_end(s, i + 1) == i + 1);
                assert(s[i + 1] != ']');
                assert forall|k: int|
                    0 <= k < l0 implies s.subrange(i + 1, i + 1 + l0)[k] == enc(e0)[k] by {
                    assert(s.subrange(i + 1, i + 1 + l0)[k] == s[i + 1 + k]);
                    assert(s[i + 1 + k] == enc(v)[1 + k]);
                }
                assert(s.subrange(i + 1, i + 1 + l0) =~= enc(e0));
                assert(s[i + 1 + l0] == enc(v)[1 + l0]);
                assert(arr_tail_enc(df)[0] == ',' || arr_tail_enc(df)[0] == ']');
                assert(s[i + 1 + l0] == arr_tail_enc(df)[0]);
                assert(jfuel_items(es) == jfuel(e0) + 1 + jfuel_items(df));
                lemma_pv_enc(s, i + 1, e0, (f - 1) as nat);
                assert forall|k: int|
                    0 <= k < tl implies s.subrange(i + 1 + l0, i + 1 + l0 + tl)[k] == arr_tail_enc(
                        df,
                    )[k] by {
                    assert(s.subrange(i + 1 + l0, i + 1 + l0 + tl)[k] == s[i + 1 + l0 + k]);
                    assert(s[i + 1 + l0 + k] == enc(v)[1 + l0 + k]);
                }
                assert(s.subrange(i + 1 + l0, i + 1 + l0 + tl) =~= arr_tail_enc(df));
                assert(decreases_to!(v => es));
                assert(decreases_to!(es => df));
                lemma_arr_tail(s, i + 1 + l0, df, (f - 1) as nat, seq![e0]);
                assert(seq![e0] + df =~= es);
            }
        },
        JVal::Obj(fs) => {
            assert(c == '{');
            if fs.len() == 0 {
                assert(enc_fields(fs) == Seq::<char>::empty());
                assert(enc(v) =~= seq!['{', '}']);
                assert(s[i + 1] == '}');
                assert(!is_ws('}'));
                assert(ws_end(s, i + 1) == i + 1);
                assert(Seq::<(Seq<char>, JVal)>::empty() =~= fs);
            } else {
                assert(forall|k: int| 0 <= k < fs.len() ==> jwf((#[trigger] fs[k]).1));
                let f0 = fs[0];
                let df = fs.drop_first();
                lemma_obj_split(fs);
                let l0 = enc_field(f0).len() as int;
                let tl = obj_tail_enc(df).len() as int;
                assert(enc(v) =~= seq!['{'] + (enc_field(fs[0]) + obj_tail_enc(df)));
                assert(ln == 1 + l0 + tl);
                assert(enc_field(f0)[0] == '"');
                assert(enc_field(f0).len() >= 1);
                assert(s.subrange(i, i + ln)[1] == s[i + 1]);
                assert(enc(v)[1] == (enc_field(f0) + obj_tail_enc(df))[0]);
                assert(s[i + 1] == enc_field(f0)[0]);
                assert(!is_ws('"'));
                assert(ws_end(s, i + 1) == i + 1);
                assert(s[i + 1] != '}');
                assert forall|k: int|
                    0 <= k < l0 implies s.subrange(i + 1, i + 1 + l0)[k] == enc_field(f0)[k] by {
                    assert(s.subrange(i + 1, i + 1 + l0)[k] == s[i + 1 + k]);
                    assert(s[i + 1 + k] == enc(v)[1 + k]);
                }
                assert(s.subrange(i + 1, i + 1 + l0) =~= enc_field(f0));
                assert(s[i + 1 + l0] == enc(v)[1 + l0]);
                assert(obj_tail_enc(df)[0] == ',' || obj_tail_enc(df)[0] == '}');
                assert(s[i + 1 + l0] == obj_tail_enc(df)[0]);
                assert(jfuel_fields(fs) == jfuel_field(f0) + 1 + jfuel_fields(df));
                assert(decreases_to!(v => fs));
                assert(decreases_to!(fs => f0));
                lemma_field_enc(s, i + 1, f0, (f - 1) as nat);
                assert forall|k: int|
                    0 <= k < tl implies s.subrange(i + 1 + l0, i + 1 + l0 + tl)[k] == obj_tail_enc(
                        df,
                    )[k] by {
                    assert(s.subrange(i + 1 + l0, i + 1 + l0 + tl)[k] == s[i + 1 + l0 + k]);
                    assert(s[i + 1 + l0 + k] == enc(v)[1 + l0 + k]);
                }
                assert(s.subrange(i + 1 + l0, i + 1 + l0 + tl) =~= obj_tail_enc(df));
                assert(decreases_to!(fs => df));
                lemma_obj_tail(s, i + 1 + l0, df, (f - 1) as nat, seq![f0]);
                assert(seq![f0] + df =~= fs);
            }
        },
    }
}

/// The encoded rest of an array parses back to its remaining items.
pub proof fn lemma_arr_tail(s: Seq<char>, i: int, rem: Seq<JVal>, f: nat, acc: Seq<JVal>)
    requires
        forall|k: int| 0 <= k < rem.len() ==> jwf(#[trigger] rem[k]),
        0 <= i,
        i + arr_tail_enc(rem).len() <= s.len(),
        s.subrange(i, i + arr_tail_enc(rem).len()) == arr_tail_enc(rem),
        f >= jfuel_items(rem) + 1,
    ensures
        p_arr_rest(s, i, f, acc) == Some((JVal::Arr(acc + rem), i + arr_tail_enc(rem).len())),
    decreases rem,
{
    let tn = arr_tail_enc(rem).len() as int;
    assert forall|k: int| 0 <= k < tn implies s[i + k] == arr_tail_enc(rem)[k] by {
        assert(s.subrange(i, i + tn)[k] == s[i + k]);
    }
    assert(s.subrange(i, i + tn)[0] == s[i]);
    assert(s[i] == arr_tail_enc(rem)[0]);
    assert(s[i] == ']' || s[i] == ',');
    assert(!is_ws(s[i]));
    assert(ws_end(s, i) == i);
    if rem.len() == 0 {
        assert(s[i] == ']');
        assert(acc + rem =~= acc);
    } else {
        let r0 = rem[0];
        let df = rem.drop_first();
        assert(s[i] == ',');
        lemma_enc_shape(r0);
        let l0 = enc(r0).len() as int;
        let tl = arr_tail_enc(df).len() as int;
        assert(arr_tail_enc(rem) == seq![','] + enc(r0) + arr_tail_enc(df));
        assert(tn == 1 + l0 + tl);
        assert forall|k: int|
            0 <= k < l0 implies s.subrange(i + 1, i + 1 + l0)[k] == enc(r0)[k] by {
            assert(s.subrange(i + 1, i + 1 + l0)[k] == s[i + 1 + k]);
            assert(s[i + 1 + k] == arr_tail_enc(rem)[1 + k]);
        }
        assert(s.subrange(i + 1, i + 1 + l0) =~= enc(r0));
        assert(s[i + 1 + l0] == arr_tail_enc(rem)[1 + l0]);
        assert(arr_tail_enc(df)[0] == ',' || arr_tail_enc(df)[0] == ']');
        assert(s[i + 1 + l0] == arr_tail_enc(df)[0]);
        assert(jfuel_items(rem) == jfuel(r0) + 1 + jfuel_items(df));
        assert(decreases_to!(rem => r0));
        lemma_pv_enc(s, i + 1, r0, (f - 1) as nat);
        assert forall|k: int|
            0 <= k < tl implies s.subrange(i + 1 + l0, i + 1 + l0 + tl)[k] == arr_tail_enc(
                df,
            )[k] by {
            assert(s.subrange(i + 1 + l0, i + 1 + l0 + tl)[k] == s[i + 1 + l0 + k]);
            assert(s[i + 1 + l0 + k] == arr_tail_enc(rem)[1 + l0 + k]);
        }
        assert(s.subrange(i + 1 + l0, i + 1 + l0 + tl) =~= arr_tail_enc(df));
        lemma_arr_tail(s, i + 1 + l0, df, (f - 1) as nat, acc.push(r0));
        assert(acc.push(r0) + df =~= acc + rem);
    }
}

/// An encoded field parses back to the field.
pub proof fn lemma_field_enc(s: Seq<char>, i: int, field: (Seq<char>, JVal), f: nat)
    requires
        jwf(field.1),
        0 <= i,
        i + enc_field(field).len() <= s.len(),
        s.subrange(i, i + enc_field(field).len()) == enc_field(field),
        field.1 is Num ==> (i + enc_field(field).len() == s.len() || !is_num_char(
            s[i + enc_field(field).len()],
        )),
        f >= jfuel_field(field),
    ensures
        p_field(s, i, f) == Some((field, i + enc_field(field).len())),
    decreases field,
{
    let fl = enc_field(field).len() as int;
    let key = field.0;
    let kl = enc_str(key).len() as int;
    let vl = enc(field.1).len() as int;
    assert(fl == kl + vl + 3);
    assert forall|k: int| 0 <= k < fl implies s[i + k] == enc_field(field)[k] by {
        assert(s.subrange(i, i + fl)[k] == s[i + k]);
    }
    assert(s[i] == enc_field(field)[0]);
    assert(s[i] == '"');
    assert(!is_ws('"'));
    assert(ws_end(s, i) == i);
    assert forall|k: int|
        0 <= k < kl + 1 implies s.subrange(i + 1, i + 1 + kl + 1)[k] == (enc_str(key)
            + seq!['"'])[k] by {
        assert(s.subrange(i + 1, i + 1 + kl + 1)[k] == s[i + 1 + k]);
        assert(s[i + 1 + k] == enc_field(field)[1 + k]);
    }
    assert(s.subrange(i + 1, i + 1 + kl + 1) =~= enc_str(key) + seq!['"']);
    lemma_p_str_enc(s, i + 1, key, Seq::empty());
    assert(Seq::empty() + key =~= key);
    assert(s[i + kl + 2] == enc_field(field)[kl + 2]);
    assert(s[i + kl + 2] == ':');
    assert(!is_ws(':'));
    assert(ws_end(s, i + kl + 2) == i + kl + 2);
    assert forall|k: int|
        0 <= k < vl implies s.subrange(i + kl + 3, i + kl + 3 + vl)[k] == enc(field.1)[k] by {
        assert(s.subrange(i + kl + 3, i + kl + 3 + vl)[k] == s[i + kl + 3 + k]);
        assert(s[i + kl + 3 + k] == enc_field(field)[kl + 3 + k]);
    }
    assert(s.subrange(i + kl + 3, i + kl + 3 + vl) =~= enc(field.1));
    assert(decreases_to!(field => field.1));
    lemma_pv_enc(s, i + kl + 3, field.1, (f - 1) as nat);
}

/// The encoded rest of an object parses back to its remaining fields.
pub proof fn lemma_obj_tail(
    s: Seq<char>,
    i: int,
    rem: Seq<(Seq<char>, JVal)>,
    f: nat,
    acc: Seq<(Seq<char>, JVal)>,
)
    requires
        forall|k: int| 0 <= k < rem.len() ==> jwf((#[trigger] rem[k]).1),
        0 <= i,
        i + obj_tail_enc(rem).len() <= s.len(),
        s.subrange(i, i + obj_tail_enc(rem).len()) == obj_tail_enc(rem),
        f >= jfuel_fields(rem) + 1,
    ensures
        p_obj_rest(s, i, f, acc) == Some((JVal::Obj(acc + rem), i + obj_tail_enc(rem).len())),
    decreases rem,
{
    let tn = obj_tail_enc(rem).len() as int;
    assert forall|k: int| 0 <= k < tn implies s[i + k] == obj_tail_enc(rem)[k] by {
        assert(s.subrange(i, i + tn)[k] == s[i + k]);
    }
    assert(s.subrange(i, i + tn)[0] == s[i]);
    assert(s[i] == obj_tail_enc(rem)[0]);
    assert(s[i] == '}' || s[i] == ',');
    assert(!is_ws(s[i]));
    assert(ws_end(s, i) == i);
    if rem.len() == 0 {
        assert(s[i] == '}');
        assert(acc + rem =~= acc);
    } else {
        let r0 = rem[0];
        let df = rem.drop_first();
        assert(s[i] == ',');
        let l0 = enc_field(r0).len() as int;
        let tl = obj_tail_enc(df).len() as int;
        assert(obj_tail_enc(rem) == seq![','] + enc_field(r0) + obj_tail_enc(df));
        assert(tn == 1 + l0 + tl);
        assert forall|k: int|
            0 <= k < l0 implies s.subrange(i + 1, i + 1 + l0)[k] == enc_field(r0)[k] by {
            assert(s.subrange(i + 1, i + 1 + l0)[k] == s[i + 1 + k]);
            assert(s[i + 1 + k] == obj_tail_enc(rem)[1 + k]);
        }
        assert(s.subrange(i + 1, i + 1 + l0) =~= enc_field(r0));
        assert(s[i + 1 + l0] == obj_tail_enc(rem)[1 + l0]);
        assert(obj_tail_enc(df)[0] == ',' || obj_tail_enc(df)[0] == '}');
        assert(s[i + 1 + l0] == obj_tail_enc(df)[0]);
        assert(jfuel_fields(rem) == jfuel_field(r0) + 1 + jfuel_fields(df));
        assert(decreases_to!(rem => r0));
        lemma_field_enc(s, i + 1, r0, (f - 1) as nat);
        assert forall|k: int|
            0 <= k < tl implies s.subrange(i + 1 + l0, i + 1 + l0 + tl)[k] == obj_tail_enc(
                df,
            )[k] by {
            assert(s.subrange(i + 1 + l0, i + 1 + l0 + tl)[k] == s[i + 1 + l0 + k]);
            assert(s[i + 1 + l0 + k] == obj_tail_enc(rem)[1 + l0 + k]);
        }
        assert(s.subrange(i + 1 + l0, i + 1 + l0 + tl) =~= obj_tail_enc(df));
        lemma_obj_tail(s, i + 1 + l0, df, (f - 1) as nat, acc.push(r0));
        assert(acc.push(r0) + df =~= acc + rem);
    }
}


/// Whether a character would break the line framing.
pub open spec fn is_line_break(c: char) -> bool {
    c == '\n' || c == '\r'
}

/// One escaped character holds no line break.
pub proof fn lemma_esc_char_line(c: char)
    ensures
        forall|k: int| 0 <= k < esc_char(c).len() ==> !is_line_break(#[trigger] esc_char(c)[k]),
{
    let e = esc_char(c);
    let cu = c as u32;
    if c == '"' || c == '\\' || c == '\n' || c == '\r' || c == '\t' || cu == 8 || cu == 12 {
        assert(!is_line_break(e[0]) && !is_line_break(e[1]));
    } else if cu < 32 {
        lemma_hex_digit_val(cu / 16);
        lemma_hex_digit_val(cu % 16);
        assert(hex_val(e[4]) is Some && hex_val(e[5]) is Some);
        assert(!is_line_break(e[4]) && !is_line_break(e[5]));
        assert(!is_line_break(e[0]) && !is_line_break(e[1]) && !is_line_break(e[2])
            && !is_line_break(e[3]));
    } else {
        assert(('\n' as u32) < 32 && ('\r' as u32) < 32);
        assert(!is_line_break(e[0]));
    }
}

/// Escaped string content holds no line break.
pub proof fn lemma_enc_str_line(s: Seq<char>)
    ensures
        forall|k: int| 0 <= k < enc_str(s).len() ==> !is_line_break(#[trigger] enc_str(s)[k]),
    decreases s.len(),
{
    if s.len() > 0 {
        lemma_esc_char_line(s[0]);
        lemma_enc_str_line(s.drop_first());
        assert(enc_str(s) == esc_char(s[0]) + enc_str(s.drop_first()));
        assert forall|k: int| 0 <= k < enc_str(s).len() implies !is_line_break(
            #[trigger] enc_str(s)[k],
        ) by {
            if k < esc_char(s[0]).len() {
                assert(enc_str(s)[k] == esc_char(s[0])[k]);
            } else {
                assert(enc_str(s)[k] == enc_str(s.drop_first())[k - esc_char(s[0]).len()]);
            }
        }
    }
}

/// A well-formed value encodes to one line: the encoding holds no line
/// break, so the line-delimited framing of the wire cannot be broken by a
/// payload.
pub proof fn lemma_enc_single_line(v: JVal)
    requires
        jwf(v),
    ensures
        forall|k: int| 0 <= k < enc(v).len() ==> !is_line_break(#[trigger] enc(v)[k]),
    decreases v,
{
    reveal_strlit("null");
    reveal_strlit("true");
    reveal_strlit("false");
    match v {
        JVal::Null => {},
        JVal::Bool(b) => {},
        JVal::Num(d) => {
            lemma_num_wf_chars(d);
            assert forall|k: int| 0 <= k < d.len() implies !is_line_break(#[trigger] d[k]) by {
                assert(is_num_char(d[k]));
                assert(('\n' as u32) < 32 && ('\r' as u32) < 32);
            }
        },
        JVal::Str(cs) => {
            lemma_enc_str_line(cs);
            assert forall|k: int| 0 <= k < enc(v).len() implies !is_line_break(
                #[trigger] enc(v)[k],
            ) by {
                if 1 <= k < 1 + enc_str(cs).len() {
                    assert(enc(v)[k] == enc_str(cs)[k - 1]);
                }
            }
        },
        JVal::Arr(es) => {
            lemma_items_line(es);
            assert forall|k: int| 0 <= k < enc(v).len() implies !is_line_break(
                #[trigger] enc(v)[k],
            ) by {
                if 1 <= k < 1 + enc_items(es).len() {
                    assert(enc(v)[k] == enc_items(es)[k - 1]);
                }
            }
        },
        JVal::Obj(fs) => {
            lemma_fields_line(fs);
            assert forall|k: int| 0 <= k < enc(v).len() implies !is_line_break(
                #[trigger] enc(v)[k],
            ) by {
                if 1 <= k < 1 + enc_fields(fs).len() {
                    assert(enc(v)[k] == enc_fields(fs)[k - 1]);
                }
            }
        },
    }
}

/// Encoded array items hold no line break.
pub proof fn lemma_items_line(items: Seq<JVal>)
    requires
        forall|k: int| 0 <= k < items.len() ==> jwf(#[trigger] items[k]),
    ensures
        forall|k: int|
            0 <= k < enc_items(items).len() ==> !is_line_break(#[trigger] enc_items(items)[k]),
    decreases items,
{
    if items.len() == 0 {
    } else if items.len() == 1 {
        lemma_enc_single_line(items[0]);
        assert(enc_items(items) == enc(items[0]));
    } else {
        lemma_enc_single_line(items[0]);
        assert(forall|k: int|
            0 <= k < items.drop_first().len() ==> jwf(#[trigger] items.drop_first()[k]));
        lemma_items_line(items.drop_first());
        assert(enc_items(items) == enc(items[0]) + seq![','] + enc_items(items.drop_first()));
        let l0 = enc(items[0]).len() as int;
        assert forall|k: int| 0 <= k < enc_items(items).len() implies !is_line_break(
            #[trigger] enc_items(items)[k],
        ) by {
            if k < l0 {
                assert(enc_items(items)[k] == enc(items[0])[k]);
            } else if k > l0 {
                assert(enc_items(items)[k] == enc_items(items.drop_first())[k - l0 - 1]);
            }
        }
    }
}

/// Encoded object fields hold no line break.
pub proof fn lemma_fields_line(fields: Seq<(Seq<char>, JVal)>)
    requires
        forall|k: int| 0 <= k < fields.len() ==> jwf((#[trigger] fields[k]).1),
    ensures
        forall|k: int|
            0 <= k < enc_fields(fields).len() ==> !is_line_break(#[trigger] enc_fields(fields)[k]),
    decreases fields,
{
    if fields.len() == 0 {
    } else {
        lemma_field_line(fields[0]);
        if fields.len() == 1 {
            assert(enc_fields(fields) == enc_field(fields[0]));
        } else {
            assert(forall|k: int|
                0 <= k < fields.drop_first().len() ==> jwf((#[trigger] fields.drop_first()[k]).1));
            lemma_fields_line(fields.drop_first());
            assert(enc_fields(fields) == enc_field(fields[0]) + seq![','] + enc_fields(
                fields.drop_first(),
            ));
            let l0 = enc_field(fields[0]).len() as int;
            assert forall|k: int| 0 <= k < enc_fields(fields).len() implies !is_line_break(
                #[trigger] enc_fields(fields)[k],
            ) by {
                if k < l0 {
                    assert(enc_fields(fields)[k] == enc_field(fields[0])[k]);
                } else if k > l0 {
                    assert(enc_fields(fields)[k] == enc_fields(fields.drop_first())[k - l0 - 1]);
                }
            }
        }
    }
}

/// One encoded object field holds no line break.
pub proof fn lemma_field_line(field: (Seq<char>, JVal))
    requires
        jwf(field.1),
    ensures
        forall|k: int|
            0 <= k < enc_field(field).len() ==> !is_line_break(#[trigger] enc_field(field)[k]),
    decreases field,
{
    lemma_enc_str_line(field.0);
    lemma_enc_single_line(field.1);
    let kl = enc_str(field.0).len() as int;
    assert forall|k: int| 0 <= k < enc_field(field).len() implies !is_line_break(
        #[trigger] enc_field(field)[k],
    ) by {
        if 1 <= k < 1 + kl {
            assert(enc_field(field)[k] == enc_str(field.0)[k - 1]);
        } else if k >= kl + 3 {
            assert(enc_field(field)[k] == enc(field.1)[k - kl - 3]);
        }
    }
}

} // verus!
