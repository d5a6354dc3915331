use vstd::prelude::*;
use vstd::string::StringSliceAdditionalSpecFns;
use vstd::utf8::{
    encode_scalar, encode_utf8, encode_utf8_valid_utf8, is_ascii_chars, is_ascii_chars_encode_utf8,
    char_is_scalar, valid_utf8, valid_utf8_concat,
};
use crate::graph::{ItemGraph, ItemKind};
use crate::reach::Traversal;

verus! {

/// Lowercase hexadecimal digit of `v` (below 16).
pub open spec fn hex_digit(v: u8) -> u8 {
    if v < 10 {
        (48 + v) as u8
    } else {
        (87 + v) as u8
    }
}

/// A byte as it stands inside a JSON string.
pub open spec fn escape_byte(b: u8) -> Seq<u8> {
    if b == 34 {
        seq![92u8, 34u8]
    } else if b == 92 {
        seq![92u8, 92u8]
    } else if b < 32 {
        seq![92u8, 117u8, 48u8, 48u8, hex_digit(b / 16), hex_digit(b % 16)]
    } else {
        seq![b]
    }
}

pub open spec fn escaped(s: Seq<u8>) -> Seq<u8>
    decreases s.len(),
{
    if s.len() == 0 {
        Seq::empty()
    } else {
        escaped(s.drop_last()) + escape_byte(s.last())
    }
}

/// A JSON string holding the UTF-8 text `s`.
pub open spec fn json_string(s: Seq<u8>) -> Seq<u8> {
    seq![34u8] + escaped(s) + seq![34u8]
}

/// Decimal digits of `v`.
pub open spec fn decimal(v: nat) -> Seq<u8>
    decreases v,
{
    if v < 10 {
        seq![(48 + v) as u8]
    } else {
        decimal(v / 10) + seq![(48 + v % 10) as u8]
    }
}

pub open spec fn kind_json(k: ItemKind) -> Seq<u8> {
    match k {
        ItemKind::Code => "\"code\"".spec_bytes(),
        ItemKind::Data => "\"data\"".spec_bytes(),
        ItemKind::Type => "\"type\"".spec_bytes(),
        ItemKind::Other => "\"other\"".spec_bytes(),
    }
}

/// The fields that every reported item has.
pub open spec fn item_fields(g: &ItemGraph, x: int) -> Seq<u8> {
    "{\"id\":".spec_bytes() + decimal(x as nat) + ",\"name\":".spec_bytes() + json_string(
        encode_utf8(g.items@[x].name@),
    ) + ",\"kind\":".spec_bytes() + kind_json(g.items@[x].kind) + ",\"size\":".spec_bytes()
        + decimal(g.items@[x].size as nat)
}

/// A garbage item.
pub open spec fn garbage_entry(g: &ItemGraph, x: int) -> Seq<u8> {
    item_fields(g, x) + "}".spec_bytes()
}

/// The immediate dominator as reported: the item itself for a root, `null`
/// for the supersource.
pub open spec fn dominator_json(n: int, x: int, up: int, is_root: bool) -> Seq<u8> {
    if up < n {
        decimal(up as nat)
    } else if is_root {
        decimal(x as nat)
    } else {
        "null".spec_bytes()
    }
}

/// An alive item with its retained size and immediate dominator.
pub open spec fn dominator_entry(g: &ItemGraph, x: int, retained: u64, up: int) -> Seq<u8> {
    item_fields(g, x) + ",\"retained_size\":".spec_bytes() + decimal(retained as nat)
        + ",\"immediate_dominator_id\":".spec_bytes() + dominator_json(g.len() as int, x, up, g.is_root(x))
        + "}".spec_bytes()
}

/// Entries of the ids in `ids`, separated by commas.
pub open spec fn garbage_body(g: &ItemGraph, ids: Seq<usize>) -> Seq<u8>
    decreases ids.len(),
{
    if ids.len() == 0 {
        Seq::empty()
    } else if ids.len() == 1 {
        garbage_entry(g, ids[0] as int)
    } else {
        garbage_body(g, ids.drop_last()) + ",".spec_bytes() + garbage_entry(g, ids.last() as int)
    }
}

pub open spec fn dominators_body(g: &ItemGraph, up: Seq<usize>, ret: Seq<u64>, ids: Seq<usize>) -> Seq<u8>
    decreases ids.len(),
{
    if ids.len() == 0 {
        Seq::empty()
    } else if ids.len() == 1 {
        dominator_entry(g, ids[0] as int, ret[ids[0] as int], up[ids[0] as int] as int)
    } else {
        dominators_body(g, up, ret, ids.drop_last()) + ",".spec_bytes() + dominator_entry(
            g,
            ids.last() as int,
            ret[ids.last() as int],
            up[ids.last() as int] as int,
        )
    }
}

proof fn lemma_ascii_valid(s: Seq<u8>)
    requires
        forall|i: int| 0 <= i < s.len() ==> s[i] < 128,
    ensures
        valid_utf8(s),
{
    let cs = Seq::new(s.len(), |i: int| s[i] as char);
    assert(is_ascii_chars(cs));
    is_ascii_chars_encode_utf8(cs);
    assert(encode_utf8(cs) =~= s);
    encode_utf8_valid_utf8(cs);
}

proof fn lemma_escaped_concat(a: Seq<u8>, b: Seq<u8>)
    ensures
        escaped(a + b) == escaped(a) + escaped(b),
    decreases b.len(),
{
    if b.len() == 0 {
        assert(a + b =~= a);
        assert(escaped(a) + escaped(b) =~= escaped(a));
    } else {
        assert((a + b).drop_last() =~= a + b.drop_last());
        assert((a + b).last() == b.last());
        lemma_escaped_concat(a, b.drop_last());
        assert(escaped(a + b) =~= escaped(a) + escaped(b));
    }
}

proof fn lemma_escaped_high(x: Seq<u8>)
    requires
        forall|i: int| 0 <= i < x.len() ==> x[i] >= 128,
    ensures
        escaped(x) == x,
    decreases x.len(),
{
    if x.len() > 0 {
        lemma_escaped_high(x.drop_last());
        assert(escaped(x) =~= x);
    }
}

proof fn lemma_escape_byte_ascii(b: u8)
    requires
        b < 128,
    ensures
        forall|i: int| 0 <= i < escape_byte(b).len() ==> escape_byte(b)[i] < 128,
{
}

proof fn lemma_multibyte_high(v: u32)
    by (bit_vector)
    ensures
        (0xC0 | ((v >> 6) & 0x1F) as u8) >= 0x80,
        (0xE0 | ((v >> 12) & 0x0F) as u8) >= 0x80,
        (0xF0 | ((v >> 18) & 0x7) as u8) >= 0x80,
        (0x80 | (v & 0x3F) as u8) >= 0x80,
        (0x80 | ((v >> 6) & 0x3F) as u8) >= 0x80,
        (0x80 | ((v >> 12) & 0x3F) as u8) >= 0x80,
        v <= 0x7F ==> ((v & 0x7F) as u8) < 128,
{
}

/// Escaping the UTF-8 encoding of a text keeps it valid UTF-8.
proof fn lemma_escaped_valid(cs: Seq<char>)
    ensures
        valid_utf8(escaped(encode_utf8(cs))),
    decreases cs.len(),
{
    if cs.len() == 0 {
        lemma_ascii_valid(escaped(encode_utf8(cs)));
    } else {
        let c = cs[0] as u32;
        let e = encode_scalar(c);
        let rest = cs.drop_first();
        assert(encode_utf8(cs) == e + encode_utf8(rest));
        lemma_escaped_concat(e, encode_utf8(rest));
        lemma_escaped_valid(rest);
        char_is_scalar(cs[0]);
        lemma_multibyte_high(c);
        if c <= 0x7F {
            let b = (c & 0x7F) as u8;
            assert(e == seq![b]);
            assert(e.drop_last() =~= Seq::<u8>::empty());
            assert(e.last() == b);
            assert(escaped(e.drop_last()) == Seq::<u8>::empty());
            assert(escaped(e) == escaped(e.drop_last()) + escape_byte(e.last()));
            assert(escaped(e) =~= escape_byte(b));
            lemma_escape_byte_ascii(b);
            lemma_ascii_valid(escaped(e));
        } else {
            assert forall|i: int| 0 <= i < e.len() implies e[i] >= 128 by {}
            lemma_escaped_high(e);
            let one = seq![cs[0]];
            assert(one.drop_first() =~= Seq::<char>::empty());
            assert(encode_utf8(one.drop_first()) == Seq::<u8>::empty());
            assert(one[0] == cs[0]);
            assert(encode_utf8(one) == encode_scalar(one[0] as u32) + encode_utf8(one.drop_first()));
            assert(encode_utf8(one) =~= e);
            encode_utf8_valid_utf8(one);
        }
        valid_utf8_concat(escaped(e), escaped(encode_utf8(rest)));
    }
}

proof fn lemma_decimal_valid(v: nat)
    ensures
        valid_utf8(decimal(v)),
        forall|i: int| 0 <= i < decimal(v).len() ==> decimal(v)[i] < 128,
    decreases v,
{
    if v >= 10 {
        lemma_decimal_valid(v / 10);
    }
    lemma_ascii_valid(decimal(v));
}

proof fn lemma_literal_valid(s: &str)
    ensures
        valid_utf8(s.spec_bytes()),
{
    encode_utf8_valid_utf8(s@);
}

proof fn lemma_cat(a: Seq<u8>, b: Seq<u8>)
    requires
        valid_utf8(a),
        valid_utf8(b),
    ensures
        valid_utf8(a + b),
{
    valid_utf8_concat(a, b);
}

proof fn lemma_kind_valid(k: ItemKind)
    ensures
        valid_utf8(kind_json(k)),
{
    match k {
        ItemKind::Code => lemma_literal_valid("\"code\""),
        ItemKind::Data => lemma_literal_valid("\"data\""),
        ItemKind::Type => lemma_literal_valid("\"type\""),
        ItemKind::Other => lemma_literal_valid("\"other\""),
    }
}

proof fn lemma_item_fields_valid(g: &ItemGraph, x: int)
    requires
        0 <= x < g.len(),
    ensures
        valid_utf8(item_fields(g, x)),
{
    let q = seq![34u8];
    lemma_ascii_valid(q);
    let e = escaped(encode_utf8(g.items@[x].name@));
    lemma_escaped_valid(g.items@[x].name@);
    lemma_cat(q, e);
    lemma_cat(q + e, q);
    let l1 = "{\"id\":".spec_bytes();
    let l2 = ",\"name\":".spec_bytes();
    let l3 = ",\"kind\":".spec_bytes();
    let l4 = ",\"size\":".spec_bytes();
    lemma_literal_valid("{\"id\":");
    lemma_literal_valid(",\"name\":");
    lemma_literal_valid(",\"kind\":");
    lemma_literal_valid(",\"size\":");
    let d1 = decimal(x as nat);
    let d2 = decimal(g.items@[x].size as nat);
    lemma_decimal_valid(x as nat);
    lemma_decimal_valid(g.items@[x].size as nat);
    let k = kind_json(g.items@[x].kind);
    lemma_kind_valid(g.items@[x].kind);
    let n = json_string(encode_utf8(g.items@[x].name@));
    assert(n == q + e + q);
    lemma_cat(l1, d1);
    lemma_cat(l1 + d1, l2);
    lemma_cat(l1 + d1 + l2, n);
    lemma_cat(l1 + d1 + l2 + n, l3);
    lemma_cat(l1 + d1 + l2 + n + l3, k);
    lemma_cat(l1 + d1 + l2 + n + l3 + k, l4);
    lemma_cat(l1 + d1 + l2 + n + l3 + k + l4, d2);
}

proof fn lemma_wrapped_valid(body: Seq<u8>)
    requires
        valid_utf8(body),
    ensures
        valid_utf8("[".spec_bytes() + body + "]".spec_bytes()),
{
    lemma_literal_valid("[");
    lemma_literal_valid("]");
    lemma_cat("[".spec_bytes(), body);
    lemma_cat("[".spec_bytes() + body, "]".spec_bytes());
}

/// Every garbage list written is valid UTF-8.
pub proof fn lemma_garbage_body_valid(g: &ItemGraph, ids: Seq<usize>)
    requires
        forall|k: int| 0 <= k < ids.len() ==> #[trigger] ids[k] < g.len(),
    ensures
        valid_utf8("[".spec_bytes() + garbage_body(g, ids) + "]".spec_bytes()),
{
    lemma_garbage_entries_valid(g, ids);
    lemma_wrapped_valid(garbage_body(g, ids));
}

proof fn lemma_garbage_entry_valid(g: &ItemGraph, x: int)
    requires
        0 <= x < g.len(),
    ensures
        valid_utf8(garbage_entry(g, x)),
{
    lemma_item_fields_valid(g, x);
    lemma_literal_valid("}");
    lemma_cat(item_fields(g, x), "}".spec_bytes());
}

proof fn lemma_garbage_entries_valid(g: &ItemGraph, ids: Seq<usize>)
    requires
        forall|k: int| 0 <= k < ids.len() ==> #[trigger] ids[k] < g.len(),
    ensures
        valid_utf8(garbage_body(g, ids)),
    decreases ids.len(),
{
    if ids.len() == 0 {
        lemma_ascii_valid(garbage_body(g, ids));
    } else if ids.len() == 1 {
        lemma_garbage_entry_valid(g, ids[0] as int);
    } else {
        let rest = ids.drop_last();
        assert forall|k: int| 0 <= k < rest.len() implies #[trigger] rest[k] < g.len() by {
            assert(rest[k] == ids[k]);
        }
        lemma_garbage_entries_valid(g, rest);
        lemma_garbage_entry_valid(g, ids.last() as int);
        lemma_literal_valid(",");
        lemma_cat(garbage_body(g, rest), ",".spec_bytes());
        lemma_cat(garbage_body(g, rest) + ",".spec_bytes(), garbage_entry(g, ids.last() as int));
    }
}

/// Every dominator list written is valid UTF-8.
pub proof fn lemma_dominators_body_valid(g: &ItemGraph, up: Seq<usize>, ret: Seq<u64>, ids: Seq<usize>)
    requires
        forall|k: int| 0 <= k < ids.len() ==> #[trigger] ids[k] < g.len(),
    ensures
        valid_utf8("[".spec_bytes() + dominators_body(g, up, ret, ids) + "]".spec_bytes()),
{
    lemma_dominators_entries_valid(g, up, ret, ids);
    lemma_wrapped_valid(dominators_body(g, up, ret, ids));
}

proof fn lemma_dominator_entry_valid(g: &ItemGraph, x: int, r: u64, u: int)
    requires
        0 <= x < g.len(),
        u >= 0,
    ensures
        valid_utf8(dominator_entry(g, x, r, u)),
{
    lemma_item_fields_valid(g, x);
    lemma_decimal_valid(r as nat);
    let j = dominator_json(g.len() as int, x, u, g.is_root(x));
    if u < g.len() {
        lemma_decimal_valid(u as nat);
    } else if g.is_root(x) {
        lemma_decimal_valid(x as nat);
    } else {
        lemma_literal_valid("null");
    }
    let f = item_fields(g, x);
    let l1 = ",\"retained_size\":".spec_bytes();
    let l2 = ",\"immediate_dominator_id\":".spec_bytes();
    let l3 = "}".spec_bytes();
    lemma_literal_valid(",\"retained_size\":");
    lemma_literal_valid(",\"immediate_dominator_id\":");
    lemma_literal_valid("}");
    let d = decimal(r as nat);
    lemma_cat(f, l1);
    lemma_cat(f + l1, d);
    lemma_cat(f + l1 + d, l2);
    lemma_cat(f + l1 + d + l2, j);
    lemma_cat(f + l1 + d + l2 + j, l3);
}

proof fn lemma_dominators_entries_valid(g: &ItemGraph, up: Seq<usize>, ret: Seq<u64>, ids: Seq<usize>)
    requires
        forall|k: int| 0 <= k < ids.len() ==> #[trigger] ids[k] < g.len(),
    ensures
        valid_utf8(dominators_body(g, up, ret, ids)),
    decreases ids.len(),
{
    if ids.len() == 0 {
        lemma_ascii_valid(dominators_body(g, up, ret, ids));
    } else if ids.len() == 1 {
        lemma_dominator_entry_valid(g, ids[0] as int, ret[ids[0] as int], up[ids[0] as int] as int);
    } else {
        let rest = ids.drop_last();
        assert forall|k: int| 0 <= k < rest.len() implies #[trigger] rest[k] < g.len() by {
            assert(rest[k] == ids[k]);
        }
        let x = ids.last() as int;
        lemma_dominators_entries_valid(g, up, ret, rest);
        lemma_dominator_entry_valid(g, x, ret[x], up[x] as int);
        lemma_literal_valid(",");
        lemma_cat(dominators_body(g, up, ret, rest), ",".spec_bytes());
        lemma_cat(dominators_body(g, up, ret, rest) + ",".spec_bytes(), dominator_entry(g, x, ret[x], up[x] as int));
    }
}

fn push_bytes(out: &mut Vec<u8>, b: &[u8])
    ensures
        final(out)@ == old(out)@ + b@,
{
    let mut i: usize = 0;
    while i < b.len()
        invariant
            i <= b@.len(),
            out@ == old(out)@ + b@.take(i as int),
        decreases b@.len() - i,
    {
        out.push(b[i]);
        i += 1;
        assert(b@.take(i as int) =~= b@.take(i - 1) + seq![b@[i - 1]]);
    }
    assert(b@.take(b@.len() as int) =~= b@);
}

fn push_str(out: &mut Vec<u8>, s: &str)
    ensures
        final(out)@ == old(out)@ + s.spec_bytes(),
{
    push_bytes(out, s.as_bytes());
}

fn push_decimal(out: &mut Vec<u8>, v: u64)
    ensures
        final(out)@ == old(out)@ + decimal(v as nat),
    decreases v,
{
    if v < 10 {
        out.push(48 + v as u8);
        assert(decimal(v as nat) =~= seq![(48 + v) as u8]);
    } else {
        push_decimal(out, v / 10);
        out.push(48 + (v % 10) as u8);
        assert(decimal(v as nat) =~= decimal((v / 10) as nat) + seq![(48 + v % 10) as u8]);
    }
}

fn push_json_string(out: &mut Vec<u8>, s: &[u8])
    ensures
        final(out)@ == old(out)@ + json_string(s@),
{
    out.push(34);
    let mut i: usize = 0;
    while i < s.len()
        invariant
            i <= s@.len(),
            out@ == old(out)@ + seq![34u8] + escaped(s@.take(i as int)),
        decreases s@.len() - i,
    {
        let b = s[i];
        let ghost before = out@;
        if b == 34 {
            out.push(92);
            out.push(34);
        } else if b == 92 {
            out.push(92);
            out.push(92);
        } else if b < 32 {
            out.push(92);
            out.push(117);
            out.push(48);
            out.push(48);
            let hi = b / 16;
            let lo = b % 16;
            out.push(if hi < 10 { 48 + hi } else { 87 + hi });
            out.push(if lo < 10 { 48 + lo } else { 87 + lo });
        } else {
            out.push(b);
        }
        assert(out@ =~= before + escape_byte(b));
        assert(s@.take(i + 1).drop_last() =~= s@.take(i as int));
        i += 1;
    }
    assert(s@.take(s@.len() as int) =~= s@);
    out.push(34);
    assert(out@ =~= old(out)@ + json_string(s@));
}

fn push_kind(out: &mut Vec<u8>, k: ItemKind)
    ensures
        final(out)@ == old(out)@ + kind_json(k),
{
    match k {
        ItemKind::Code => push_str(out, "\"code\""),
        ItemKind::Data => push_str(out, "\"data\""),
        ItemKind::Type => push_str(out, "\"type\""),
        ItemKind::Other => push_str(out, "\"other\""),
    }
}

fn push_item_fields(out: &mut Vec<u8>, g: &ItemGraph, x: usize)
    requires
        x < g.len(),
    ensures
        final(out)@ == old(out)@ + item_fields(g, x as int),
{
    let item = &g.items[x];
    push_str(out, "{\"id\":");
    push_decimal(out, x as u64);
    push_str(out, ",\"name\":");
    push_json_string(out, item.name.as_str().as_bytes());
    push_str(out, ",\"kind\":");
    push_kind(out, item.kind);
    push_str(out, ",\"size\":");
    push_decimal(out, item.size as u64);
    assert(out@ =~= old(out)@ + item_fields(g, x as int));
}


/// The garbage list as a JSON array.
pub fn garbage_json(g: &ItemGraph, ids: &Vec<usize>) -> (out: Vec<u8>)
    requires
        forall|k: int| 0 <= k < ids@.len() ==> #[trigger] ids@[k] < g.len(),
    ensures
        out@ == "[".spec_bytes() + garbage_body(g, ids@) + "]".spec_bytes(),
{
    let mut out: Vec<u8> = Vec::new();
    push_str(&mut out, "[");
    let mut i: usize = 0;
    while i < ids.len()
        invariant
            i <= ids@.len(),
            forall|k: int| 0 <= k < ids@.len() ==> #[trigger] ids@[k] < g.len(),
            out@ == "[".spec_bytes() + garbage_body(g, ids@.take(i as int)),
        decreases ids@.len() - i,
    {
        let ghost before = out@;
        if i > 0 {
            push_str(&mut out, ",");
        }
        push_item_fields(&mut out, g, ids[i]);
        push_str(&mut out, "}");
        proof {
            let tk = ids@.take(i + 1);
            assert(tk.drop_last() =~= ids@.take(i as int));
            assert(tk.last() == ids@[i as int]);
            if i == 0 {
                assert(tk[0] == ids@[0]);
                assert(out@ =~= "[".spec_bytes() + garbage_body(g, tk));
            } else {
                assert(out@ =~= "[".spec_bytes() + garbage_body(g, tk));
            }
        }
        i += 1;
    }
    push_str(&mut out, "]");
    assert(ids@.take(ids@.len() as int) =~= ids@);
    out
}

fn push_dominator_entry(out: &mut Vec<u8>, g: &ItemGraph, t: &Traversal, up: &Vec<usize>, ret: &Vec<u64>, x: usize)
    requires
        t.complete(g),
        up@.len() == g.len(),
        ret@.len() == g.len(),
        x < g.len(),
        t.alive@[x as int],
    ensures
        final(out)@ == old(out)@ + dominator_entry(g, x as int, ret@[x as int], up@[x as int] as int),
{
    let n = g.items.len();
    push_item_fields(out, g, x);
    push_str(out, ",\"retained_size\":");
    push_decimal(out, ret[x]);
    push_str(out, ",\"immediate_dominator_id\":");
    let u = up[x];
    let ghost mid = out@;
    if u < n {
        push_decimal(out, u as u64);
    } else if t.parent[x] == n {
        push_decimal(out, x as u64);
    } else {
        push_str(out, "null");
    }
    assert(out@ =~= mid + dominator_json(n as int, x as int, u as int, g.is_root(x as int)));
    push_str(out, "}");
    assert(out@ =~= old(out)@ + dominator_entry(g, x as int, ret@[x as int], up@[x as int] as int));
}

/// The dominator list as a JSON array.
pub fn dominators_json(g: &ItemGraph, t: &Traversal, up: &Vec<usize>, ret: &Vec<u64>, ids: &Vec<usize>) -> (out: Vec<u8>)
    requires
        t.complete(g),
        up@.len() == g.len(),
        ret@.len() == g.len(),
        forall|k: int| 0 <= k < ids@.len() ==> #[trigger] ids@[k] < g.len() && t.alive@[ids@[k] as int],
    ensures
        out@ == "[".spec_bytes() + dominators_body(g, up@, ret@, ids@) + "]".spec_bytes(),
{
    let n = g.items.len();
    let mut out: Vec<u8> = Vec::new();
    push_str(&mut out, "[");
    let mut i: usize = 0;
    while i < ids.len()
        invariant
            n == g.len(),
            t.complete(g),
            up@.len() == n,
            ret@.len() == n,
            i <= ids@.len(),
            forall|k: int| 0 <= k < ids@.len() ==> #[trigger] ids@[k] < g.len() && t.alive@[ids@[k] as int],
            out@ == "[".spec_bytes() + dominators_body(g, up@, ret@, ids@.take(i as int)),
        decreases ids@.len() - i,
    {
        let x = ids[i];
        if i > 0 {
            push_str(&mut out, ",");
        }
        push_dominator_entry(&mut out, g, t, up, ret, x);
        proof {
            let tk = ids@.take(i + 1);
            assert(tk.drop_last() =~= ids@.take(i as int));
            assert(tk.last() == x);
            if i == 0 {
                assert(tk[0] == x);
                assert(out@ =~= "[".spec_bytes() + dominators_body(g, up@, ret@, tk));
            } else {
                assert(out@ =~= "[".spec_bytes() + dominators_body(g, up@, ret@, tk));
            }
        }
        i += 1;
    }
    push_str(&mut out, "]");
    assert(ids@.take(ids@.len() as int) =~= ids@);
    out
}

} // verus!
