//! The persisted JSON format. A store is kept under one storage key as
//!
//! `{"entries":[{"id":"<uuid>","description":"<text>","completed":<bool>},
//! ...],"filter":"All"}`
//!
//! with ids written as hyphenated lower-case hex (the usual uuid form),
//! descriptions escaped as JSON strings, and the three filter names spelled
//! `All`, `Active` and `Completed`. The field names, the filter spellings and
//! the id form are the compatibility contract with previously persisted data.

use vstd::prelude::*;

use crate::todos::{EntryView, Filter, StoreView, TodoEntry, Todos};

verus! {

/// 16 to the power `n`.
pub open spec fn pow16(n: nat) -> int
    decreases n,
{
    if n == 0 {
        1
    } else {
        16 * pow16((n - 1) as nat)
    }
}

pub proof fn lemma_pow16_pos(n: nat)
    ensures
        pow16(n) >= 1,
    decreases n,
{
    if n > 0 {
        lemma_pow16_pos((n - 1) as nat)
    }
}

/// The whole u128 range is covered by 32 hex digits.
pub proof fn lemma_pow16_32()
    ensures
        pow16(32) == 0x100000000000000000000000000000000int,
{
    reveal_with_fuel(pow16, 33);
}

/// The lower-case hex digit standing for `d`.
pub open spec fn hex_char(d: int) -> char {
    if d == 0 {
        '0'
    } else if d == 1 {
        '1'
    } else if d == 2 {
        '2'
    } else if d == 3 {
        '3'
    } else if d == 4 {
        '4'
    } else if d == 5 {
        '5'
    } else if d == 6 {
        '6'
    } else if d == 7 {
        '7'
    } else if d == 8 {
        '8'
    } else if d == 9 {
        '9'
    } else if d == 10 {
        'a'
    } else if d == 11 {
        'b'
    } else if d == 12 {
        'c'
    } else if d == 13 {
        'd'
    } else if d == 14 {
        'e'
    } else {
        'f'
    }
}

/// The value of a hex digit, upper or lower case; -1 for anything else.
pub open spec fn hex_val(c: char) -> int {
    if c == '0' {
        0
    } else if c == '1' {
        1
    } else if c == '2' {
        2
    } else if c == '3' {
        3
    } else if c == '4' {
        4
    } else if c == '5' {
        5
    } else if c == '6' {
        6
    } else if c == '7' {
        7
    } else if c == '8' {
        8
    } else if c == '9' {
        9
    } else if c == 'a' || c == 'A' {
        10
    } else if c == 'b' || c == 'B' {
        11
    } else if c == 'c' || c == 'C' {
        12
    } else if c == 'd' || c == 'D' {
        13
    } else if c == 'e' || c == 'E' {
        14
    } else if c == 'f' || c == 'F' {
        15
    } else {
        -1
    }
}

pub open spec fn is_hex(c: char) -> bool {
    hex_val(c) >= 0
}

/// The `n` least-significant hex digits of `x`, most significant first.
pub open spec fn hex_digits(x: int, n: nat) -> Seq<char>
    decreases n,
{
    if n == 0 {
        Seq::empty()
    } else {
        hex_digits(x / 16, (n - 1) as nat).push(hex_char(x % 16))
    }
}

/// Digits folded onto `acc`, most significant first.
pub open spec fn hex_fold(acc: int, ds: Seq<char>) -> int
    decreases ds.len(),
{
    if ds.len() == 0 {
        acc
    } else {
        hex_fold(acc, ds.drop_last()) * 16 + hex_val(ds.last())
    }
}

/// Reading back the written digits restores the value.
pub proof fn lemma_hex_fold_digits(acc: int, x: int, n: nat)
    requires
        0 <= x < pow16(n),
    ensures
        hex_fold(acc, hex_digits(x, n)) == acc * pow16(n) + x,
    decreases n,
{
    if n == 0 {
    } else {
        let m = (n - 1) as nat;
        vstd::arithmetic::div_mod::lemma_fundamental_div_mod(x, 16);
        lemma_pow16_pos(m);
        assert(16 * (x / 16) <= x);
        assert(x / 16 < pow16(m));
        lemma_hex_fold_digits(acc, x / 16, m);
        let d = hex_digits(x, n);
        assert(d.drop_last() =~= hex_digits(x / 16, m));
        assert(hex_val(hex_char(x % 16)) == x % 16);
        assert((acc * pow16(m) + x / 16) * 16 + x % 16 == acc * (16 * pow16(m)) + (16 * (x / 16)
            + x % 16)) by (nonlinear_arith);
    }
}

/// Every digit the encoder writes is a hex digit.
pub proof fn lemma_hex_digits_are_hex(x: int, n: nat)
    requires
        x >= 0,
    ensures
        hex_digits(x, n).len() == n,
        forall|k: int| 0 <= k < n ==> is_hex(#[trigger] hex_digits(x, n)[k]),
    decreases n,
{
    if n > 0 {
        lemma_hex_digits_are_hex(x / 16, (n - 1) as nat);
        let d = hex_digits(x, n);
        assert forall|k: int| 0 <= k < n implies is_hex(d[k]) by {
            if k < n - 1 {
                assert(d[k] == hex_digits(x / 16, (n - 1) as nat)[k]);
            } else {
                assert(d[k] == hex_char(x % 16));
            }
        }
    }
}

/// A uuid written the usual way: 8-4-4-4-12 lower-case hex digits.
pub open spec fn encode_id(x: u128) -> Seq<char> {
    let d = hex_digits(x as int, 32);
    d.subrange(0, 8) + seq!['-'] + d.subrange(8, 12) + seq!['-'] + d.subrange(12, 16) + seq!['-']
        + d.subrange(16, 20) + seq!['-'] + d.subrange(20, 32)
}

/// One description character as written inside a JSON string: quotes and
/// backslashes escaped, control characters as `\u00XY`, all else literal.
pub open spec fn escape_char(c: char) -> Seq<char> {
    if c == '"' {
        seq!['\\', '"']
    } else if c == '\\' {
        seq!['\\', '\\']
    } else if (c as u32) < 32 {
        seq!['\\', 'u', '0', '0', hex_char((c as u32) as int / 16), hex_char(
            (c as u32) as int % 16,
        )]
    } else {
        seq![c]
    }
}

pub open spec fn escape_seq(s: Seq<char>) -> Seq<char>
    decreases s.len(),
{
    if s.len() == 0 {
        Seq::empty()
    } else {
        escape_seq(s.drop_last()) + escape_char(s.last())
    }
}

/// `escape_seq` peeled from the front, as the parser walks it.
pub proof fn lemma_escape_seq_first(s: Seq<char>)
    requires
        s.len() > 0,
    ensures
        escape_seq(s) == escape_char(s[0]) + escape_seq(s.drop_first()),
    decreases s.len(),
{
    if s.len() == 1 {
        assert(s.drop_last() =~= Seq::<char>::empty());
        assert(s.drop_first() =~= Seq::<char>::empty());
        assert(escape_seq(s) =~= escape_char(s[0]) + escape_seq(s.drop_first()));
    } else {
        lemma_escape_seq_first(s.drop_last());
        assert(s.drop_last()[0] == s[0]);
        assert(s.drop_first().drop_last() =~= s.drop_last().drop_first());
        assert(s.drop_first().last() == s.last());
        assert(escape_seq(s) =~= escape_char(s[0]) + escape_seq(s.drop_first()));
    }
}

pub open spec fn filter_name(f: Filter) -> Seq<char> {
    match f {
        Filter::All => seq!['A', 'l', 'l'],
        Filter::Active => seq!['A', 'c', 't', 'i', 'v', 'e'],
        Filter::Completed => seq!['C', 'o', 'm', 'p', 'l', 'e', 't', 'e', 'd'],
    }
}

pub open spec fn bool_name(b: bool) -> Seq<char> {
    if b {
        seq!['t', 'r', 'u', 'e']
    } else {
        seq!['f', 'a', 'l', 's', 'e']
    }
}

pub open spec fn lit_header() -> Seq<char> {
    seq!['{', '"', 'e', 'n', 't', 'r', 'i', 'e', 's', '"', ':', '[']
}

pub open spec fn lit_id() -> Seq<char> {
    seq!['{', '"', 'i', 'd', '"', ':', '"']
}

pub open spec fn lit_desc() -> Seq<char> {
    seq!['"', ',', '"', 'd', 'e', 's', 'c', 'r', 'i', 'p', 't', 'i', 'o', 'n', '"', ':', '"']
}

pub open spec fn lit_comp() -> Seq<char> {
    seq!['"', ',', '"', 'c', 'o', 'm', 'p', 'l', 'e', 't', 'e', 'd', '"', ':']
}

pub open spec fn lit_mid() -> Seq<char> {
    seq![']', ',', '"', 'f', 'i', 'l', 't', 'e', 'r', '"', ':', '"']
}

pub open spec fn lit_tail() -> Seq<char> {
    seq!['"', '}']
}

pub open spec fn encode_entry(e: EntryView) -> Seq<char> {
    lit_id() + encode_id(e.id) + lit_desc() + escape_seq(e.description) + lit_comp() + bool_name(
        e.completed,
    ) + seq!['}']
}

pub open spec fn encode_entries(s: Seq<EntryView>) -> Seq<char>
    decreases s.len(),
{
    if s.len() == 0 {
        Seq::empty()
    } else if s.len() == 1 {
        encode_entry(s[0])
    } else {
        encode_entry(s[0]) + seq![','] + encode_entries(s.drop_first())
    }
}

/// The whole persisted document.
pub open spec fn encode_store(v: StoreView) -> Seq<char> {
    lit_header() + encode_entries(v.entries) + lit_mid() + filter_name(v.filter) + lit_tail()
}

/// Relies on String::push: appends exactly the one character.
#[verifier::external_body]
pub(crate) fn push_char(out: &mut String, c: char)
    ensures
        final(out)@ == old(out)@.push(c),
{
    out.push(c);
}

/// Appends every character of `v` to `out`.
fn push_chars(out: &mut String, v: &Vec<char>)
    ensures
        final(out)@ == old(out)@ + v@,
{
    let n = v.len();
    let mut i: usize = 0;
    while i < n
        invariant
            n == v@.len(),
            i <= n,
            out@ == old(out)@ + v@.take(i as int),
        decreases n - i,
    {
        push_char(out, v[i]);
        proof {
            assert(out@ =~= old(out)@ + v@.take(i + 1));
        }
        i += 1;
    }
    proof {
        assert(out@ =~= old(out)@ + v@);
    }
}

fn hex_char_exec(d: u32) -> (c: char)
    requires
        d < 16,
    ensures
        c == hex_char(d as int),
{
    if d == 0 {
        '0'
    } else if d == 1 {
        '1'
    } else if d == 2 {
        '2'
    } else if d == 3 {
        '3'
    } else if d == 4 {
        '4'
    } else if d == 5 {
        '5'
    } else if d == 6 {
        '6'
    } else if d == 7 {
        '7'
    } else if d == 8 {
        '8'
    } else if d == 9 {
        '9'
    } else if d == 10 {
        'a'
    } else if d == 11 {
        'b'
    } else if d == 12 {
        'c'
    } else if d == 13 {
        'd'
    } else if d == 14 {
        'e'
    } else {
        'f'
    }
}

fn hex_digits_exec(x: u128, n: usize) -> (v: Vec<char>)
    ensures
        v@ == hex_digits(x as int, n as nat),
    decreases n,
{
    if n == 0 {
        Vec::new()
    } else {
        let mut v = hex_digits_exec(x / 16, n - 1);
        v.push(hex_char_exec((x % 16) as u32));
        v
    }
}

/// Appends `d@.subrange(from, to)` to `out`.
fn push_char_range(out: &mut String, d: &Vec<char>, from: usize, to: usize)
    requires
        from <= to <= d@.len(),
    ensures
        final(out)@ == old(out)@ + d@.subrange(from as int, to as int),
{
    let mut i: usize = from;
    while i < to
        invariant
            from <= i <= to <= d@.len(),
            out@ == old(out)@ + d@.subrange(from as int, i as int),
        decreases to - i,
    {
        push_char(out, d[i]);
        proof {
            assert(out@ =~= old(out)@ + d@.subrange(from as int, i + 1));
        }
        i += 1;
    }
}

/// Appends the hyphenated hex form of `x` to `out`.
fn push_id(out: &mut String, x: u128)
    ensures
        final(out)@ == old(out)@ + encode_id(x),
{
    let d = hex_digits_exec(x, 32);
    proof {
        lemma_hex_digits_are_hex(x as int, 32);
    }
    push_char_range(out, &d, 0, 8);
    push_char(out, '-');
    push_char_range(out, &d, 8, 12);
    push_char(out, '-');
    push_char_range(out, &d, 12, 16);
    push_char(out, '-');
    push_char_range(out, &d, 16, 20);
    push_char(out, '-');
    push_char_range(out, &d, 20, 32);
    proof {
        assert(out@ =~= old(out)@ + encode_id(x));
    }
}

/// Appends the JSON-escaped form of `s` to `out`.
fn push_escaped(out: &mut String, s: &String)
    ensures
        final(out)@ == old(out)@ + escape_seq(s@),
{
    let n = s.as_str().unicode_len();
    let mut i: usize = 0;
    while i < n
        invariant
            n == s@.len(),
            i <= n,
            out@ == old(out)@ + escape_seq(s@.take(i as int)),
        decreases n - i,
    {
        let c = s.as_str().get_char(i);
        if c == '"' {
            push_char(out, '\\');
            push_char(out, '"');
        } else if c == '\\' {
            push_char(out, '\\');
            push_char(out, '\\');
        } else if (c as u32) < 32 {
            push_char(out, '\\');
            push_char(out, 'u');
            push_char(out, '0');
            push_char(out, '0');
            push_char(out, hex_char_exec((c as u32) / 16));
            push_char(out, hex_char_exec((c as u32) % 16));
        } else {
            push_char(out, c);
        }
        proof {
            assert(s@.take(i + 1).drop_last() =~= s@.take(i as int));
            assert(s@.take(i + 1).last() == s@[i as int]);
            assert(out@ =~= old(out)@ + escape_seq(s@.take(i + 1)));
        }
        i += 1;
    }
    proof {
        assert(s@.take(n as int) =~= s@);
    }
}

/// Appends the encoding of one entry to `out`.
fn push_entry(out: &mut String, e: &TodoEntry)
    ensures
        final(out)@ == old(out)@ + encode_entry(e@),
{
    push_chars(out, &lit_id_vec());
    push_id(out, e.id);
    push_chars(out, &lit_desc_vec());
    push_escaped(out, &e.description);
    push_chars(out, &lit_comp_vec());
    if e.completed {
        push_char(out, 't');
        push_char(out, 'r');
        push_char(out, 'u');
        push_char(out, 'e');
    } else {
        push_char(out, 'f');
        push_char(out, 'a');
        push_char(out, 'l');
        push_char(out, 's');
        push_char(out, 'e');
    }
    push_char(out, '}');
    proof {
        assert(out@ =~= old(out)@ + encode_entry(e@));
    }
}

/// Appends the encodings of `entries[i..]`, comma-separated, to `out`.
fn push_entries(out: &mut String, entries: &Vec<TodoEntry>, i: usize)
    requires
        i <= entries@.len(),
    ensures
        final(out)@ == old(out)@ + encode_entries(
            entries@.map_values(|e: TodoEntry| e@).skip(i as int),
        ),
    decreases entries@.len() - i,
{
    let ghost vs = entries@.map_values(|e: TodoEntry| e@);
    if i == entries.len() {
        proof {
            assert(vs.skip(i as int) =~= Seq::<EntryView>::empty());
            assert(out@ =~= out@ + encode_entries(vs.skip(i as int)));
        }
        return ;
    }
    push_entry(out, &entries[i]);
    if i + 1 < entries.len() {
        push_char(out, ',');
    }
    push_entries(out, entries, i + 1);
    proof {
        assert(vs.skip(i as int)[0] == vs[i as int]);
        assert(vs.skip(i as int).drop_first() =~= vs.skip(i + 1));
        if i + 1 < entries@.len() {
            assert(vs.skip(i as int).len() > 1);
            assert(out@ =~= old(out)@ + encode_entries(vs.skip(i as int)));
        } else {
            assert(vs.skip(i as int).len() == 1);
            assert(vs.skip(i + 1) =~= Seq::<EntryView>::empty());
            assert(out@ =~= old(out)@ + encode_entries(vs.skip(i as int)));
        }
    }
}

fn lit_id_vec() -> (v: Vec<char>)
    ensures
        v@ == lit_id(),
{
    let mut v: Vec<char> = Vec::new();
    v.push('{');
    v.push('"');
    v.push('i');
    v.push('d');
    v.push('"');
    v.push(':');
    v.push('"');
    proof {
        assert(v@ =~= lit_id());
    }
    v
}

fn lit_desc_vec() -> (v: Vec<char>)
    ensures
        v@ == lit_desc(),
{
    let mut v: Vec<char> = Vec::new();
    v.push('"');
    v.push(',');
    v.push('"');
    v.push('d');
    v.push('e');
    v.push('s');
    v.push('c');
    v.push('r');
    v.push('i');
    v.push('p');
    v.push('t');
    v.push('i');
    v.push('o');
    v.push('n');
    v.push('"');
    v.push(':');
    v.push('"');
    proof {
        assert(v@ =~= lit_desc());
    }
    v
}

fn lit_comp_vec() -> (v: Vec<char>)
    ensures
        v@ == lit_comp(),
{
    let mut v: Vec<char> = Vec::new();
    v.push('"');
    v.push(',');
    v.push('"');
    v.push('c');
    v.push('o');
    v.push('m');
    v.push('p');
    v.push('l');
    v.push('e');
    v.push('t');
    v.push('e');
    v.push('d');
    v.push('"');
    v.push(':');
    proof {
        assert(v@ =~= lit_comp());
    }
    v
}

fn lit_header_vec() -> (v: Vec<char>)
    ensures
        v@ == lit_header(),
{
    let mut v: Vec<char> = Vec::new();
    v.push('{');
    v.push('"');
    v.push('e');
    v.push('n');
    v.push('t');
    v.push('r');
    v.push('i');
    v.push('e');
    v.push('s');
    v.push('"');
    v.push(':');
    v.push('[');
    proof {
        assert(v@ =~= lit_header());
    }
    v
}

fn lit_mid_vec() -> (v: Vec<char>)
    ensures
        v@ == lit_mid(),
{
    let mut v: Vec<char> = Vec::new();
    v.push(']');
    v.push(',');
    v.push('"');
    v.push('f');
    v.push('i');
    v.push('l');
    v.push('t');
    v.push('e');
    v.push('r');
    v.push('"');
    v.push(':');
    v.push('"');
    proof {
        assert(v@ =~= lit_mid());
    }
    v
}

fn lit_tail_vec() -> (v: Vec<char>)
    ensures
        v@ == lit_tail(),
{
    let mut v: Vec<char> = Vec::new();
    v.push('"');
    v.push('}');
    proof {
        assert(v@ =~= lit_tail());
    }
    v
}

fn filter_name_vec(f: Filter) -> (v: Vec<char>)
    ensures
        v@ == filter_name(f),
{
    let mut v: Vec<char> = Vec::new();
    match f {
        Filter::All => {
            v.push('A');
            v.push('l');
            v.push('l');
        },
        Filter::Active => {
            v.push('A');
            v.push('c');
            v.push('t');
            v.push('i');
            v.push('v');
            v.push('e');
        },
        Filter::Completed => {
            v.push('C');
            v.push('o');
            v.push('m');
            v.push('p');
            v.push('l');
            v.push('e');
            v.push('t');
            v.push('e');
            v.push('d');
        },
    }
    proof {
        assert(v@ =~= filter_name(f));
    }
    v
}

/// The position past `lit` when the text at `i` spells it out.
pub open spec fn spec_expect(s: Seq<char>, i: int, lit: Seq<char>) -> Option<int> {
    if 0 <= i && i + lit.len() <= s.len() && s.subrange(i, i + lit.len()) == lit {
        Option::Some(i + lit.len())
    } else {
        Option::None
    }
}

/// A two-character JSON escape, by its second character.
pub open spec fn spec_unescape(e: char) -> Option<char> {
    if e == '"' {
        Option::Some('"')
    } else if e == '\\' {
        Option::Some('\\')
    } else if e == '/' {
        Option::Some('/')
    } else if e == 'n' {
        Option::Some('\n')
    } else if e == 't' {
        Option::Some('\t')
    } else if e == 'r' {
        Option::Some('\r')
    } else if e == 'b' {
        Option::Some('\u{8}')
    } else if e == 'f' {
        Option::Some('\u{c}')
    } else {
        Option::None
    }
}

/// The body of a JSON string starting at `i` (past its opening quote),
/// and the position past its closing quote.
pub open spec fn spec_parse_string(s: Seq<char>, i: int) -> Option<(Seq<char>, int)>
    decreases s.len() - i,
{
    if i < 0 || i >= s.len() {
        Option::None
    } else if s[i] == '"' {
        Option::Some((Seq::empty(), i + 1))
    } else if s[i] == '\\' {
        if i + 1 < s.len() {
            if s[i + 1] == 'u' {
                if i + 5 < s.len() && is_hex(s[i + 2]) && is_hex(s[i + 3]) && is_hex(s[i + 4])
                    && is_hex(s[i + 5]) {
                    let v = ((hex_val(s[i + 2]) * 16 + hex_val(s[i + 3])) * 16 + hex_val(
                        s[i + 4],
                    )) * 16 + hex_val(s[i + 5]);
                    if v < 0xD800 || v >= 0xE000 {
                        match spec_parse_string(s, i + 6) {
                            Option::Some((d, j)) => Option::Some(
                                (seq![(v as u32) as char] + d, j),
                            ),
                            Option::None => Option::None,
                        }
                    } else {
                        Option::None
                    }
                } else {
                    Option::None
                }
            } else {
                match spec_unescape(s[i + 1]) {
                    Option::Some(c) => match spec_parse_string(s, i + 2) {
                        Option::Some((d, j)) => Option::Some((seq![c] + d, j)),
                        Option::None => Option::None,
                    },
                    Option::None => Option::None,
                }
            }
        } else {
            Option::None
        }
    } else {
        match spec_parse_string(s, i + 1) {
            Option::Some((d, j)) => Option::Some((seq![s[i]] + d, j)),
            Option::None => Option::None,
        }
    }
}

/// The 32 digit positions of a 36-character hyphenated uuid text.
pub open spec fn id_digits(d: Seq<char>) -> Seq<char> {
    d.subrange(0, 8) + d.subrange(9, 13) + d.subrange(14, 18) + d.subrange(19, 23) + d.subrange(
        24,
        36,
    )
}

/// A hyphenated uuid read back as its 128-bit value.
pub open spec fn spec_parse_id(s: Seq<char>, i: int) -> Option<(u128, int)> {
    if 0 <= i && i + 36 <= s.len() {
        let d = s.subrange(i, i + 36);
        if d[8] == '-' && d[13] == '-' && d[18] == '-' && d[23] == '-' && (forall|k: int|
            0 <= k < 32 ==> is_hex(#[trigger] id_digits(d)[k])) {
            Option::Some((hex_fold(0, id_digits(d)) as u128, i + 36))
        } else {
            Option::None
        }
    } else {
        Option::None
    }
}

pub open spec fn spec_parse_bool(s: Seq<char>, i: int) -> Option<(bool, int)> {
    match spec_expect(s, i, bool_name(true)) {
        Option::Some(j) => Option::Some((true, j)),
        Option::None => match spec_expect(s, i, bool_name(false)) {
            Option::Some(j) => Option::Some((false, j)),
            Option::None => Option::None,
        },
    }
}

pub open spec fn spec_parse_filter(s: Seq<char>, i: int) -> Option<(Filter, int)> {
    match spec_expect(s, i, filter_name(Filter::All)) {
        Option::Some(j) => Option::Some((Filter::All, j)),
        Option::None => match spec_expect(s, i, filter_name(Filter::Active)) {
            Option::Some(j) => Option::Some((Filter::Active, j)),
            Option::None => match spec_expect(s, i, filter_name(Filter::Completed)) {
                Option::Some(j) => Option::Some((Filter::Completed, j)),
                Option::None => Option::None,
            },
        },
    }
}

/// The tail of `lit_comp` once the string parser has consumed the closing
/// quote that `lit_comp` opens with.
pub open spec fn lit_comp_rest() -> Seq<char> {
    seq![',', '"', 'c', 'o', 'm', 'p', 'l', 'e', 't', 'e', 'd', '"', ':']
}

pub open spec fn spec_parse_entry(s: Seq<char>, i: int) -> Option<(EntryView, int)> {
    match spec_expect(s, i, lit_id()) {
        Option::None => Option::None,
        Option::Some(j1) => match spec_parse_id(s, j1) {
            Option::None => Option::None,
            Option::Some((id, j2)) => match spec_expect(s, j2, lit_desc()) {
                Option::None => Option::None,
                Option::Some(j3) => match spec_parse_string(s, j3) {
                    Option::None => Option::None,
                    Option::Some((d, j4)) => match spec_expect(s, j4, lit_comp_rest()) {
                        Option::None => Option::None,
                        Option::Some(j5) => match spec_parse_bool(s, j5) {
                            Option::None => Option::None,
                            Option::Some((b, j6)) => match spec_expect(s, j6, seq!['}']) {
                                Option::None => Option::None,
                                Option::Some(j7) => Option::Some(
                                    (EntryView { id, description: d, completed: b }, j7),
                                ),
                            },
                        },
                    },
                },
            },
        },
    }
}

/// A successful string parse lands strictly past `i`, within the text.
pub proof fn lemma_parse_string_advances(s: Seq<char>, i: int)
    ensures
        match spec_parse_string(s, i) {
            Option::Some((d, j)) => i < j <= s.len(),
            Option::None => true,
        },
    decreases s.len() - i,
{
    if i < 0 || i >= s.len() {
    } else if s[i] == '"' {
    } else if s[i] == '\\' {
        if i + 1 < s.len() {
            if s[i + 1] == 'u' {
                if i + 5 < s.len() {
                    lemma_parse_string_advances(s, i + 6);
                }
            } else {
                lemma_parse_string_advances(s, i + 2);
            }
        }
    } else {
        lemma_parse_string_advances(s, i + 1);
    }
}

/// A successful entry parse lands strictly past `i`, within the text.
pub proof fn lemma_parse_entry_advances(s: Seq<char>, i: int)
    ensures
        match spec_parse_entry(s, i) {
            Option::Some((e, j)) => i < j <= s.len(),
            Option::None => true,
        },
{
    match spec_parse_entry(s, i) {
        Option::Some((e, j)) => {
            let j1 = spec_expect(s, i, lit_id()).unwrap();
            let j3 = spec_expect(s, j1 + 36, lit_desc()).unwrap();
            lemma_parse_string_advances(s, j3);
        },
        Option::None => {},
    }
}

/// The comma-separated entry list starting at `i`; it ends where the next
/// character is no longer part of an entry list.
pub open spec fn spec_parse_entries(s: Seq<char>, i: int) -> Option<(Seq<EntryView>, int)>
    decreases s.len() - i,
{
    if i < 0 || i > s.len() {
        Option::None
    } else if i < s.len() && s[i] == '{' {
        match spec_parse_entry(s, i) {
            Option::Some((e, j)) => {
                proof {
                    lemma_parse_entry_advances(s, i);
                }
                if j < s.len() && s[j] == ',' {
                    match spec_parse_entries(s, j + 1) {
                        Option::Some((rest, k)) => Option::Some((seq![e] + rest, k)),
                        Option::None => Option::None,
                    }
                } else {
                    Option::Some((seq![e], j))
                }
            },
            Option::None => Option::None,
        }
    } else {
        Option::Some((Seq::empty(), i))
    }
}

/// The whole persisted document, accepted only in full.
pub open spec fn spec_parse_store(s: Seq<char>) -> Option<StoreView> {
    match spec_expect(s, 0, lit_header()) {
        Option::None => Option::None,
        Option::Some(j1) => match spec_parse_entries(s, j1) {
            Option::None => Option::None,
            Option::Some((es, j2)) => match spec_expect(s, j2, lit_mid()) {
                Option::None => Option::None,
                Option::Some(j3) => match spec_parse_filter(s, j3) {
                    Option::None => Option::None,
                    Option::Some((f, j4)) => match spec_expect(s, j4, lit_tail()) {
                        Option::None => Option::None,
                        Option::Some(j5) => {
                            if j5 == s.len() {
                                Option::Some(StoreView { entries: es, filter: f })
                            } else {
                                Option::None
                            }
                        },
                    },
                },
            },
        },
    }
}

/// The fresh store that stands in when nothing useful was persisted.
pub open spec fn empty_store() -> StoreView {
    StoreView { entries: Seq::empty(), filter: Filter::All }
}

/// What loading makes of what storage held: a missing key, a document the
/// grammar rejects, and duplicate ids all fall back to the fresh store.
pub open spec fn spec_load(stored: Option<Seq<char>>) -> StoreView {
    match stored {
        Option::None => empty_store(),
        Option::Some(s) => match spec_parse_store(s) {
            Option::Some(v) => {
                if crate::todos::unique_ids(v.entries) {
                    v
                } else {
                    empty_store()
                }
            },
            Option::None => empty_store(),
        },
    }
}

proof fn lemma_expect_encoded(s: Seq<char>, i: int, lit: Seq<char>)
    requires
        0 <= i,
        i + lit.len() <= s.len(),
        s.subrange(i, i + lit.len()) == lit,
    ensures
        spec_expect(s, i, lit) == Option::Some(i + lit.len()),
{
}

proof fn lemma_parse_id_encoded(s: Seq<char>, i: int, x: u128)
    requires
        0 <= i,
        i + 36 <= s.len(),
        s.subrange(i, i + 36) == encode_id(x),
    ensures
        spec_parse_id(s, i) == Option::Some((x, i + 36)),
{
    let d = s.subrange(i, i + 36);
    let hd = hex_digits(x as int, 32);
    lemma_hex_digits_are_hex(x as int, 32);
    assert(d[8] == '-');
    assert(d[13] == '-');
    assert(d[18] == '-');
    assert(d[23] == '-');
    assert(id_digits(d) =~= hd);
    lemma_pow16_32();
    lemma_hex_fold_digits(0, x as int, 32);
    assert(hex_fold(0, id_digits(d)) == x as int);
}

proof fn lemma_parse_bool_encoded(s: Seq<char>, i: int, b: bool)
    requires
        0 <= i,
        i + bool_name(b).len() <= s.len(),
        s.subrange(i, i + bool_name(b).len()) == bool_name(b),
    ensures
        spec_parse_bool(s, i) == Option::Some((b, i + bool_name(b).len())),
{
    if !b {
        if spec_expect(s, i, bool_name(true)) is Some {
            assert(s.subrange(i, i + 4)[0] == bool_name(true)[0]);
            assert(s.subrange(i, i + 5)[0] == bool_name(false)[0]);
            assert(false);
        }
    }
}

proof fn lemma_parse_filter_encoded(s: Seq<char>, i: int, f: Filter)
    requires
        0 <= i,
        i + filter_name(f).len() <= s.len(),
        s.subrange(i, i + filter_name(f).len()) == filter_name(f),
    ensures
        spec_parse_filter(s, i) == Option::Some((f, i + filter_name(f).len())),
{
    match f {
        Filter::All => {},
        Filter::Active => {
            if spec_expect(s, i, filter_name(Filter::All)) is Some {
                assert(s.subrange(i, i + 3)[1] == filter_name(Filter::All)[1]);
                assert(s.subrange(i, i + 6)[1] == filter_name(Filter::Active)[1]);
                assert(false);
            }
        },
        Filter::Completed => {
            if spec_expect(s, i, filter_name(Filter::All)) is Some {
                assert(s.subrange(i, i + 3)[0] == filter_name(Filter::All)[0]);
                assert(s.subrange(i, i + 9)[0] == filter_name(Filter::Completed)[0]);
                assert(false);
            }
            if spec_expect(s, i, filter_name(Filter::Active)) is Some {
                assert(s.subrange(i, i + 6)[0] == filter_name(Filter::Active)[0]);
                assert(s.subrange(i, i + 9)[0] == filter_name(Filter::Completed)[0]);
                assert(false);
            }
        },
    }
}

proof fn lemma_parse_string_encoded(s: Seq<char>, i: int, d: Seq<char>)
    requires
        0 <= i,
        i + escape_seq(d).len() + 1 <= s.len(),
        s.subrange(i, i + escape_seq(d).len()) == escape_seq(d),
        s[i + escape_seq(d).len()] == '"',
    ensures
        spec_parse_string(s, i) == Option::Some((d, i + escape_seq(d).len() + 1)),
    decreases d.len(),
{
    let esc = escape_seq(d);
    assert forall|k: int| 0 <= k < esc.len() implies s[i + k] == #[trigger] esc[k] by {
        assert(s.subrange(i, i + esc.len())[k] == esc[k]);
    }
    if d.len() == 0 {
        assert(esc =~= Seq::<char>::empty());
    } else {
        lemma_escape_seq_first(d);
        let c = d[0];
        let ec = escape_char(c);
        let dr = d.drop_first();
        let escr = escape_seq(dr);
        assert(esc == ec + escr);
        assert forall|m: int| 0 <= m < ec.len() implies s[i + m] == #[trigger] ec[m] by {
            assert(esc[m] == ec[m]);
        }
        let i2 = i + ec.len();
        assert(s.subrange(i2, i2 + escr.len()) =~= escr) by {
            assert forall|k: int| 0 <= k < escr.len() implies s.subrange(i2, i2 + escr.len())[k]
                == escr[k] by {
                assert(s[i2 + k] == esc[ec.len() + k]);
            }
        }
        assert(s[i2 + escr.len()] == '"');
        lemma_parse_string_encoded(s, i2, dr);
        if c == '"' {
            assert(ec[0] == '\\');
            assert(ec[1] == '"');
            assert(s[i] == '\\');
            assert(s[i + 1] == '"');
            assert(seq!['"'] + dr =~= d);
        } else if c == '\\' {
            assert(ec[0] == '\\');
            assert(ec[1] == '\\');
            assert(s[i] == '\\');
            assert(s[i + 1] == '\\');
            assert(seq!['\\'] + dr =~= d);
        } else if (c as u32) < 32 {
            let cu = (c as u32) as int;
            assert(ec[0] == '\\');
            assert(ec[1] == 'u');
            assert(ec[2] == '0');
            assert(ec[3] == '0');
            assert(ec[4] == hex_char(cu / 16));
            assert(ec[5] == hex_char(cu % 16));
            assert(s[i] == '\\');
            assert(s[i + 1] == 'u');
            assert(s[i + 2] == '0');
            assert(s[i + 3] == '0');
            assert(s[i + 4] == hex_char(cu / 16));
            assert(s[i + 5] == hex_char(cu % 16));
            vstd::arithmetic::div_mod::lemma_fundamental_div_mod(cu, 16);
            assert(hex_val(hex_char(cu / 16)) == cu / 16);
            assert(hex_val(hex_char(cu % 16)) == cu % 16);
            let v = ((hex_val(s[i + 2]) * 16 + hex_val(s[i + 3])) * 16 + hex_val(s[i + 4])) * 16
                + hex_val(s[i + 5]);
            assert(v == cu);
            vstd::utf8::char_u32_cast(c, c as u32);
            assert((v as u32) as char == c);
            assert(seq![c] + dr =~= d);
        } else {
            assert(ec[0] == c);
            assert(s[i] == c);
            assert(seq![c] + dr =~= d);
        }
    }
}

proof fn lemma_parse_entry_encoded(s: Seq<char>, i: int, e: EntryView)
    requires
        0 <= i,
        i + encode_entry(e).len() <= s.len(),
        s.subrange(i, i + encode_entry(e).len()) == encode_entry(e),
    ensures
        spec_parse_entry(s, i) == Option::Some((e, i + encode_entry(e).len())),
{
    let enc = encode_entry(e);
    let eid = encode_id(e.id);
    let esc = escape_seq(e.description);
    let bn = bool_name(e.completed);
    lemma_hex_digits_are_hex(e.id as int, 32);
    assert(eid.len() == 36);
    assert forall|k: int| 0 <= k < enc.len() implies s[i + k] == #[trigger] enc[k] by {
        assert(s.subrange(i, i + enc.len())[k] == enc[k]);
    }
    let p1 = i + 7;
    let p2 = p1 + 36;
    let p3 = p2 + 17;
    let p4 = p3 + esc.len() + 1;
    let p5 = p4 + 13;
    let p6 = p5 + bn.len();
    assert(s.subrange(i, i + 7) =~= lit_id()) by {
        assert forall|m: int| 0 <= m < 7 implies s.subrange(i, i + 7)[m] == lit_id()[m] by {
            assert(enc[m] == lit_id()[m]);
        }
    }
    lemma_expect_encoded(s, i, lit_id());
    assert(s.subrange(p1, p1 + 36) =~= eid) by {
        assert forall|m: int| 0 <= m < 36 implies s.subrange(p1, p1 + 36)[m] == eid[m] by {
            assert(enc[7 + m] == eid[m]);
        }
    }
    lemma_parse_id_encoded(s, p1, e.id);
    assert(s.subrange(p2, p2 + 17) =~= lit_desc()) by {
        assert forall|m: int| 0 <= m < 17 implies s.subrange(p2, p2 + 17)[m] == lit_desc()[m] by {
            assert(enc[43 + m] == lit_desc()[m]);
        }
    }
    lemma_expect_encoded(s, p2, lit_desc());
    assert(s.subrange(p3, p3 + esc.len()) =~= esc) by {
        assert forall|m: int| 0 <= m < esc.len() implies s.subrange(p3, p3 + esc.len())[m]
            == esc[m] by {
            assert(enc[60 + m] == esc[m]);
        }
    }
    assert(s[p3 + esc.len()] == lit_comp()[0]) by {
        assert(enc[60 + esc.len() as int] == lit_comp()[0]);
    }
    lemma_parse_string_encoded(s, p3, e.description);
    assert(s.subrange(p4, p4 + 13) =~= lit_comp_rest()) by {
        assert forall|m: int| 0 <= m < 13 implies s.subrange(p4, p4 + 13)[m]
            == lit_comp_rest()[m] by {
            assert(enc[60 + esc.len() as int + 1 + m] == lit_comp()[m + 1]);
            assert(lit_comp()[m + 1] == lit_comp_rest()[m]);
        }
    }
    lemma_expect_encoded(s, p4, lit_comp_rest());
    assert(s.subrange(p5, p5 + bn.len()) =~= bn) by {
        assert forall|m: int| 0 <= m < bn.len() implies s.subrange(p5, p5 + bn.len())[m]
            == bn[m] by {
            assert(enc[60 + esc.len() as int + 14 + m] == bn[m]);
        }
    }
    lemma_parse_bool_encoded(s, p5, e.completed);
    assert(s.subrange(p6, p6 + 1) =~= seq!['}']) by {
        assert(enc[60 + esc.len() as int + 14 + bn.len() as int] == '}');
        assert(s.subrange(p6, p6 + 1)[0] == '}');
    }
    lemma_expect_encoded(s, p6, seq!['}']);
}

proof fn lemma_parse_entries_encoded(s: Seq<char>, i: int, vs: Seq<EntryView>)
    requires
        0 <= i,
        i + encode_entries(vs).len() < s.len(),
        s.subrange(i, i + encode_entries(vs).len()) == encode_entries(vs),
        s[i + encode_entries(vs).len()] == ']',
    ensures
        spec_parse_entries(s, i) == Option::Some((vs, i + encode_entries(vs).len())),
    decreases vs.len(),
{
    let enc = encode_entries(vs);
    assert forall|k: int| 0 <= k < enc.len() implies s[i + k] == #[trigger] enc[k] by {
        assert(s.subrange(i, i + enc.len())[k] == enc[k]);
    }
    if vs.len() == 0 {
        assert(vs =~= Seq::<EntryView>::empty());
    } else {
        let e0 = vs[0];
        let ee = encode_entry(e0);
        let el = ee.len() as int;
        assert(ee[0] == lit_id()[0]);
        assert(enc[0] == ee[0]);
        assert(s[i] == '{');
        assert(s.subrange(i, i + el) =~= ee) by {
            assert forall|m: int| 0 <= m < el implies s.subrange(i, i + el)[m] == ee[m] by {
                assert(enc[m] == ee[m]);
            }
        }
        lemma_parse_entry_encoded(s, i, e0);
        let j = i + el;
        if vs.len() == 1 {
            assert(s[j] == ']');
            assert(seq![e0] =~= vs);
        } else {
            let rest = encode_entries(vs.drop_first());
            assert(enc[el] == ',');
            assert(s[j] == ',');
            assert(s.subrange(j + 1, j + 1 + rest.len()) =~= rest) by {
                assert forall|k: int| 0 <= k < rest.len() implies s.subrange(
                    j + 1,
                    j + 1 + rest.len(),
                )[k] == rest[k] by {
                    assert(enc[el + 1 + k] == rest[k]);
                    assert(s[j + 1 + k] == enc[el + 1 + k]);
                }
            }
            assert(s[j + 1 + rest.len()] == ']');
            lemma_parse_entries_encoded(s, j + 1, vs.drop_first());
            assert(seq![e0] + vs.drop_first() =~= vs);
        }
    }
}

/// The document the encoder writes is accepted whole, and reconstructs the
/// very store it was written from.
pub proof fn lemma_parse_store_encoded(v: StoreView)
    ensures
        spec_parse_store(encode_store(v)) == Option::Some(v),
{
    let s = encode_store(v);
    let ee = encode_entries(v.entries);
    let nm = filter_name(v.filter);
    let q1 = 12int;
    let q2 = q1 + ee.len();
    let q3 = q2 + 12;
    let q4 = q3 + nm.len();
    assert(s.len() == q4 + 2);
    assert(s.subrange(0, 12) =~= lit_header()) by {
        assert forall|m: int| 0 <= m < 12 implies s.subrange(0, 12)[m] == lit_header()[m] by {
            assert(s[m] == lit_header()[m]);
        }
    }
    lemma_expect_encoded(s, 0, lit_header());
    assert(s.subrange(q1, q2) =~= ee) by {
        assert forall|m: int| 0 <= m < ee.len() implies s.subrange(q1, q2)[m] == ee[m] by {
            assert(s[q1 + m] == ee[m]);
        }
    }
    assert(s[q2] == lit_mid()[0]);
    lemma_parse_entries_encoded(s, q1, v.entries);
    assert(s.subrange(q2, q3) =~= lit_mid()) by {
        assert forall|m: int| 0 <= m < 12 implies s.subrange(q2, q3)[m] == lit_mid()[m] by {
            assert(s[q2 + m] == lit_mid()[m]);
        }
    }
    lemma_expect_encoded(s, q2, lit_mid());
    assert(s.subrange(q3, q4) =~= nm) by {
        assert forall|m: int| 0 <= m < nm.len() implies s.subrange(q3, q4)[m] == nm[m] by {
            assert(s[q3 + m] == nm[m]);
        }
    }
    lemma_parse_filter_encoded(s, q3, v.filter);
    assert(s.subrange(q4, q4 + 2) =~= lit_tail()) by {
        assert forall|m: int| 0 <= m < 2 implies s.subrange(q4, q4 + 2)[m] == lit_tail()[m] by {
            assert(s[q4 + m] == lit_tail()[m]);
        }
    }
    lemma_expect_encoded(s, q4, lit_tail());
}

/// Re-loading the persisted document reconstructs the store exactly: same
/// entries, in the same order, and the same filter.
pub proof fn lemma_save_load_round_trip(v: StoreView)
    requires
        crate::todos::unique_ids(v.entries),
    ensures
        spec_load(Option::Some(encode_store(v))) == v,
{
    lemma_parse_store_encoded(v);
}

pub proof fn lemma_pow16_mono(a: nat, b: nat)
    requires
        a <= b,
    ensures
        pow16(a) <= pow16(b),
    decreases b,
{
    if a < b {
        lemma_pow16_mono(a, (b - 1) as nat);
        lemma_pow16_pos((b - 1) as nat);
    }
}

/// Folding digits one run after another is folding their concatenation.
proof fn lemma_hex_fold_append(acc: int, x: Seq<char>, y: Seq<char>)
    ensures
        hex_fold(acc, x + y) == hex_fold(hex_fold(acc, x), y),
    decreases y.len(),
{
    if y.len() == 0 {
        assert(x + y =~= x);
    } else {
        assert((x + y).drop_last() =~= x + y.drop_last());
        assert((x + y).last() == y.last());
        lemma_hex_fold_append(acc, x, y.drop_last());
    }
}

fn hex_val_exec(c: char) -> (r: Option<u32>)
    ensures
        match r {
            Option::Some(d) => is_hex(c) && d as int == hex_val(c),
            Option::None => !is_hex(c),
        },
{
    if c == '0' {
        Some(0)
    } else if c == '1' {
        Some(1)
    } else if c == '2' {
        Some(2)
    } else if c == '3' {
        Some(3)
    } else if c == '4' {
        Some(4)
    } else if c == '5' {
        Some(5)
    } else if c == '6' {
        Some(6)
    } else if c == '7' {
        Some(7)
    } else if c == '8' {
        Some(8)
    } else if c == '9' {
        Some(9)
    } else if c == 'a' || c == 'A' {
        Some(10)
    } else if c == 'b' || c == 'B' {
        Some(11)
    } else if c == 'c' || c == 'C' {
        Some(12)
    } else if c == 'd' || c == 'D' {
        Some(13)
    } else if c == 'e' || c == 'E' {
        Some(14)
    } else if c == 'f' || c == 'F' {
        Some(15)
    } else {
        None
    }
}

fn expect_exec(s: &Vec<char>, i: usize, lit: &Vec<char>) -> (r: Option<usize>)
    ensures
        match r {
            Option::Some(j) => spec_expect(s@, i as int, lit@) == Option::Some(j as int),
            Option::None => spec_expect(s@, i as int, lit@) is None,
        },
{
    if i > s.len() || s.len() - i < lit.len() {
        return None;
    }
    let mut k: usize = 0;
    while k < lit.len()
        invariant
            i + lit@.len() <= s@.len(),
            s@.len() <= usize::MAX,
            k <= lit@.len(),
            forall|m: int| 0 <= m < k ==> s@[i + m] == lit@[m],
        decreases lit@.len() - k,
    {
        if s[i + k] != lit[k] {
            proof {
                if s@.subrange(i as int, i + lit@.len()) == lit@ {
                    assert(s@.subrange(i as int, i + lit@.len())[k as int] == lit@[k as int]);
                }
            }
            return None;
        }
        k += 1;
    }
    proof {
        assert(s@.subrange(i as int, i + lit@.len()) =~= lit@);
    }
    Some(i + lit.len())
}

/// Reads `count` hex digits at `i`, folding them onto `acc`; `m` bounds how
/// many digits `acc` already stands for.
fn parse_hex_run(s: &Vec<char>, i: usize, count: usize, acc: u128, Ghost(m): Ghost<nat>) -> (r:
    Option<(u128, usize)>)
    requires
        m + count <= 32,
        (acc as int) < pow16(m),
    ensures
        match r {
            Option::Some((v, j)) => j == i + count && i + count <= s@.len() && (forall|k: int|
                i <= k < i + count ==> is_hex(#[trigger] s@[k])) && v as int == hex_fold(
                acc as int,
                s@.subrange(i as int, i + count),
            ) && (v as int) < pow16((m + count) as nat),
            Option::None => i + count > s@.len() || exists|k: int|
                i <= k < i + count && !is_hex(#[trigger] s@[k]),
        },
{
    if i > s.len() || s.len() - i < count {
        return None;
    }
    let mut val = acc;
    let mut k: usize = 0;
    while k < count
        invariant
            i + count <= s@.len(),
            s@.len() <= usize::MAX,
            k <= count,
            m + count <= 32,
            forall|t: int| i <= t < i + k ==> is_hex(#[trigger] s@[t]),
            val as int == hex_fold(acc as int, s@.subrange(i as int, i + k)),
            (val as int) < pow16((m + k) as nat),
        decreases count - k,
    {
        let c = s[i + k];
        let d = match hex_val_exec(c) {
            Some(d) => d,
            None => {
                proof {
                    assert(!is_hex(s@[i + k]));
                }
                return None;
            },
        };
        proof {
            lemma_pow16_mono((m + k + 1) as nat, 32);
            lemma_pow16_32();
            assert(pow16((m + k + 1) as nat) == 16 * pow16((m + k) as nat));
            assert((val as int) * 16 + (d as int) < pow16((m + k + 1) as nat));
            assert(s@.subrange(i as int, i + k + 1).drop_last() =~= s@.subrange(
                i as int,
                i + k,
            ));
            assert(s@.subrange(i as int, i + k + 1).last() == s@[i + k]);
        }
        val = val * 16 + (d as u128);
        k += 1;
    }
    Some((val, i + count))
}

fn parse_id_exec(s: &Vec<char>, i: usize) -> (r: Option<(u128, usize)>)
    ensures
        match r {
            Option::Some((x, j)) => spec_parse_id(s@, i as int) == Option::Some((x, j as int)),
            Option::None => spec_parse_id(s@, i as int) is None,
        },
{
    if i > s.len() || s.len() - i < 36 {
        return None;
    }
    let ghost d = s@.subrange(i as int, i + 36);
    let ghost g1 = s@.subrange(i as int, i + 8);
    let ghost g2 = s@.subrange(i + 9, i + 13);
    let ghost g3 = s@.subrange(i + 14, i + 18);
    let ghost g4 = s@.subrange(i + 19, i + 23);
    let ghost g5 = s@.subrange(i + 24, i + 36);
    proof {
        assert(d.subrange(0, 8) =~= g1);
        assert(d.subrange(9, 13) =~= g2);
        assert(d.subrange(14, 18) =~= g3);
        assert(d.subrange(19, 23) =~= g4);
        assert(d.subrange(24, 36) =~= g5);
    }
    let v1 = match parse_hex_run(s, i, 8, 0, Ghost(0nat)) {
        Some((v, _)) => v,
        None => {
            proof {
                let k = choose|k: int| i <= k < i + 8 && !is_hex(s@[k]);
                assert(id_digits(d)[k - i] == s@[k]);
            }
            return None;
        },
    };
    if s[i + 8] != '-' {
        proof {
            assert(d[8] == s@[i + 8]);
        }
        return None;
    }
    let v2 = match parse_hex_run(s, i + 9, 4, v1, Ghost(8nat)) {
        Some((v, _)) => v,
        None => {
            proof {
                let k = choose|k: int| i + 9 <= k < i + 13 && !is_hex(s@[k]);
                assert(id_digits(d)[8 + (k - (i + 9))] == s@[k]);
            }
            return None;
        },
    };
    if s[i + 13] != '-' {
        proof {
            assert(d[13] == s@[i + 13]);
        }
        return None;
    }
    let v3 = match parse_hex_run(s, i + 14, 4, v2, Ghost(12nat)) {
        Some((v, _)) => v,
        None => {
            proof {
                let k = choose|k: int| i + 14 <= k < i + 18 && !is_hex(s@[k]);
                assert(id_digits(d)[12 + (k - (i + 14))] == s@[k]);
            }
            return None;
        },
    };
    if s[i + 18] != '-' {
        proof {
            assert(d[18] == s@[i + 18]);
        }
        return None;
    }
    let v4 = match parse_hex_run(s, i + 19, 4, v3, Ghost(16nat)) {
        Some((v, _)) => v,
        None => {
            proof {
                let k = choose|k: int| i + 19 <= k < i + 23 && !is_hex(s@[k]);
                assert(id_digits(d)[16 + (k - (i + 19))] == s@[k]);
            }
            return None;
        },
    };
    if s[i + 23] != '-' {
        proof {
            assert(d[23] == s@[i + 23]);
        }
        return None;
    }
    let v5 = match parse_hex_run(s, i + 24, 12, v4, Ghost(20nat)) {
        Some((v, _)) => v,
        None => {
            proof {
                let k = choose|k: int| i + 24 <= k < i + 36 && !is_hex(s@[k]);
                assert(id_digits(d)[20 + (k - (i + 24))] == s@[k]);
            }
            return None;
        },
    };
    proof {
        lemma_hex_fold_append(0, g1, g2);
        lemma_hex_fold_append(0, g1 + g2, g3);
        lemma_hex_fold_append(0, g1 + g2 + g3, g4);
        lemma_hex_fold_append(0, g1 + g2 + g3 + g4, g5);
        assert(id_digits(d) =~= g1 + g2 + g3 + g4 + g5);
        assert(v5 as int == hex_fold(0, id_digits(d)));
        assert forall|k: int| 0 <= k < 32 implies is_hex(#[trigger] id_digits(d)[k]) by {
            if k < 8 {
                assert(id_digits(d)[k] == s@[i + k]);
            } else if k < 12 {
                assert(id_digits(d)[k] == s@[i + 9 + (k - 8)]);
            } else if k < 16 {
                assert(id_digits(d)[k] == s@[i + 14 + (k - 12)]);
            } else if k < 20 {
                assert(id_digits(d)[k] == s@[i + 19 + (k - 16)]);
            } else {
                assert(id_digits(d)[k] == s@[i + 24 + (k - 20)]);
            }
        }
        assert(d[8] == s@[i + 8] && d[13] == s@[i + 13] && d[18] == s@[i + 18] && d[23] == s@[i
            + 23]);
    }
    Some((v5, i + 36))
}

fn unescape_exec(e: char) -> (r: Option<char>)
    ensures
        r == spec_unescape(e),
{
    if e == '"' {
        Some('"')
    } else if e == '\\' {
        Some('\\')
    } else if e == '/' {
        Some('/')
    } else if e == 'n' {
        Some('\n')
    } else if e == 't' {
        Some('\t')
    } else if e == 'r' {
        Some('\r')
    } else if e == 'b' {
        Some('\u{8}')
    } else if e == 'f' {
        Some('\u{c}')
    } else {
        None
    }
}

/// Relies on char::from_u32: a scalar value outside the surrogate range
/// converts to exactly the character with that value, and surrogates and
/// values past the last code point convert to nothing.
#[verifier::external_body]
fn char_from_u32(v: u32) -> (r: Option<char>)
    ensures
        (v < 0xD800 || (0xE000 <= v && v <= 0x10FFFF)) <==> r is Some,
        match r {
            Option::Some(c) => c as u32 == v,
            Option::None => true,
        },
{
    char::from_u32(v)
}

fn parse_string_exec(s: &Vec<char>, i: usize, acc: String) -> (r: Option<(String, usize)>)
    ensures
        match r {
            Option::Some((t, j)) => {
                &&& spec_parse_string(s@, i as int) matches Option::Some((d, jj))
                &&& jj == j as int
                &&& t@ == acc@ + d
            },
            Option::None => spec_parse_string(s@, i as int) is None,
        },
    decreases s@.len() - i,
{
    if i >= s.len() {
        return None;
    }
    let c = s[i];
    if c == '"' {
        proof {
            assert(acc@ + Seq::<char>::empty() =~= acc@);
        }
        return Some((acc, i + 1));
    }
    if c == '\\' {
        if s.len() - i < 2 {
            return None;
        }
        let e = s[i + 1];
        if e == 'u' {
            if s.len() - i < 6 {
                return None;
            }
            let h2 = match hex_val_exec(s[i + 2]) {
                Some(h) => h,
                None => {
                    return None;
                },
            };
            let h3 = match hex_val_exec(s[i + 3]) {
                Some(h) => h,
                None => {
                    return None;
                },
            };
            let h4 = match hex_val_exec(s[i + 4]) {
                Some(h) => h,
                None => {
                    return None;
                },
            };
            let h5 = match hex_val_exec(s[i + 5]) {
                Some(h) => h,
                None => {
                    return None;
                },
            };
            let v: u32 = ((h2 * 16 + h3) * 16 + h4) * 16 + h5;
            if !(v < 0xD800) && v < 0xE000 {
                return None;
            }
            let c2 = match char_from_u32(v) {
                Some(c2) => c2,
                None => {
                    proof {
                        assert(false);
                    }
                    return None;
                },
            };
            proof {
                vstd::utf8::char_u32_cast(c2, v);
            }
            let mut acc2 = acc;
            push_char(&mut acc2, c2);
            match parse_string_exec(s, i + 6, acc2) {
                Some((t, j)) => {
                    proof {
                        let dd = spec_parse_string(s@, i + 6).unwrap().0;
                        assert(acc@.push(c2) + dd =~= acc@ + (seq![c2] + dd));
                    }
                    Some((t, j))
                },
                None => None,
            }
        } else {
            match unescape_exec(e) {
                Some(c2) => {
                    let mut acc2 = acc;
                    push_char(&mut acc2, c2);
                    match parse_string_exec(s, i + 2, acc2) {
                        Some((t, j)) => {
                            proof {
                                let dd = spec_parse_string(s@, i + 2).unwrap().0;
                                assert(acc@.push(c2) + dd =~= acc@ + (seq![c2] + dd));
                            }
                            Some((t, j))
                        },
                        None => None,
                    }
                },
                None => None,
            }
        }
    } else {
        let mut acc2 = acc;
        push_char(&mut acc2, c);
        match parse_string_exec(s, i + 1, acc2) {
            Some((t, j)) => {
                proof {
                    let dd = spec_parse_string(s@, i + 1).unwrap().0;
                    assert(acc@.push(c) + dd =~= acc@ + (seq![c] + dd));
                }
                Some((t, j))
            },
            None => None,
        }
    }
}

fn bool_true_vec() -> (v: Vec<char>)
    ensures
        v@ == bool_name(true),
{
    let mut v: Vec<char> = Vec::new();
    v.push('t');
    v.push('r');
    v.push('u');
    v.push('e');
    proof {
        assert(v@ =~= bool_name(true));
    }
    v
}

fn bool_false_vec() -> (v: Vec<char>)
    ensures
        v@ == bool_name(false),
{
    let mut v: Vec<char> = Vec::new();
    v.push('f');
    v.push('a');
    v.push('l');
    v.push('s');
    v.push('e');
    proof {
        assert(v@ =~= bool_name(false));
    }
    v
}

fn parse_bool_exec(s: &Vec<char>, i: usize) -> (r: Option<(bool, usize)>)
    ensures
        match r {
            Option::Some((b, j)) => spec_parse_bool(s@, i as int) == Option::Some((b, j as int)),
            Option::None => spec_parse_bool(s@, i as int) is None,
        },
{
    match expect_exec(s, i, &bool_true_vec()) {
        Some(j) => Some((true, j)),
        None => match expect_exec(s, i, &bool_false_vec()) {
            Some(j) => Some((false, j)),
            None => None,
        },
    }
}

fn parse_filter_exec(s: &Vec<char>, i: usize) -> (r: Option<(Filter, usize)>)
    ensures
        match r {
            Option::Some((f, j)) => spec_parse_filter(s@, i as int) == Option::Some(
                (f, j as int),
            ),
            Option::None => spec_parse_filter(s@, i as int) is None,
        },
{
    match expect_exec(s, i, &filter_name_vec(Filter::All)) {
        Some(j) => Some((Filter::All, j)),
        None => match expect_exec(s, i, &filter_name_vec(Filter::Active)) {
            Some(j) => Some((Filter::Active, j)),
            None => match expect_exec(s, i, &filter_name_vec(Filter::Completed)) {
                Some(j) => Some((Filter::Completed, j)),
                None => None,
            },
        },
    }
}

fn lit_comp_rest_vec() -> (v: Vec<char>)
    ensures
        v@ == lit_comp_rest(),
{
    let mut v: Vec<char> = Vec::new();
    v.push(',');
    v.push('"');
    v.push('c');
    v.push('o');
    v.push('m');
    v.push('p');
    v.push('l');
    v.push('e');
    v.push('t');
    v.push('e');
    v.push('d');
    v.push('"');
    v.push(':');
    proof {
        assert(v@ =~= lit_comp_rest());
    }
    v
}

fn brace_close_vec() -> (v: Vec<char>)
    ensures
        v@ == seq!['}'],
{
    let mut v: Vec<char> = Vec::new();
    v.push('}');
    proof {
        assert(v@ =~= seq!['}']);
    }
    v
}

fn parse_entry_exec(s: &Vec<char>, i: usize) -> (r: Option<(TodoEntry, usize)>)
    ensures
        match r {
            Option::Some((e, j)) => spec_parse_entry(s@, i as int) == Option::Some(
                (e@, j as int),
            ),
            Option::None => spec_parse_entry(s@, i as int) is None,
        },
{
    let j1 = match expect_exec(s, i, &lit_id_vec()) {
        Some(j) => j,
        None => {
            return None;
        },
    };
    let (id, j2) = match parse_id_exec(s, j1) {
        Some(p) => p,
        None => {
            return None;
        },
    };
    let j3 = match expect_exec(s, j2, &lit_desc_vec()) {
        Some(j) => j,
        None => {
            return None;
        },
    };
    let (dsc, j4) = match parse_string_exec(s, j3, String::new()) {
        Some(p) => p,
        None => {
            return None;
        },
    };
    let j5 = match expect_exec(s, j4, &lit_comp_rest_vec()) {
        Some(j) => j,
        None => {
            return None;
        },
    };
    let (b, j6) = match parse_bool_exec(s, j5) {
        Some(p) => p,
        None => {
            return None;
        },
    };
    let j7 = match expect_exec(s, j6, &brace_close_vec()) {
        Some(j) => j,
        None => {
            return None;
        },
    };
    proof {
        let dd = spec_parse_string(s@, j3 as int).unwrap().0;
        assert(dsc@ =~= dd);
    }
    Some((TodoEntry { id, description: dsc, completed: b }, j7))
}

fn parse_entries_exec(s: &Vec<char>, i: usize) -> (r: Option<(Vec<TodoEntry>, usize)>)
    requires
        i <= s@.len(),
    ensures
        match r {
            Option::Some((v, j)) => spec_parse_entries(s@, i as int) == Option::Some(
                (v@.map_values(|e: TodoEntry| e@), j as int),
            ),
            Option::None => spec_parse_entries(s@, i as int) is None,
        },
    decreases s@.len() - i,
{
    if i == s.len() || !(s[i] == '{') {
        let v: Vec<TodoEntry> = Vec::new();
        proof {
            assert(v@.map_values(|e: TodoEntry| e@) =~= Seq::<EntryView>::empty());
        }
        return Some((v, i));
    }
    let (e, j) = match parse_entry_exec(s, i) {
        Some(p) => p,
        None => {
            return None;
        },
    };
    proof {
        lemma_parse_entry_advances(s@, i as int);
    }
    if j < s.len() && s[j] == ',' {
        match parse_entries_exec(s, j + 1) {
            Some((v, k)) => {
                let mut v2 = v;
                v2.insert(0, e);
                proof {
                    assert(v2@.map_values(|x: TodoEntry| x@) =~= seq![e@] + v@.map_values(
                        |x: TodoEntry| x@,
                    ));
                }
                Some((v2, k))
            },
            None => None,
        }
    } else {
        let mut v: Vec<TodoEntry> = Vec::new();
        v.push(e);
        proof {
            assert(v@.map_values(|x: TodoEntry| x@) =~= seq![e@]);
        }
        Some((v, j))
    }
}

fn parse_store_exec(s: &Vec<char>) -> (r: Option<Todos>)
    ensures
        match r {
            Option::Some(t) => spec_parse_store(s@) == Option::Some(t@),
            Option::None => spec_parse_store(s@) is None,
        },
{
    let j1 = match expect_exec(s, 0, &lit_header_vec()) {
        Some(j) => j,
        None => {
            return None;
        },
    };
    let (entries, j2) = match parse_entries_exec(s, j1) {
        Some(p) => p,
        None => {
            return None;
        },
    };
    let j3 = match expect_exec(s, j2, &lit_mid_vec()) {
        Some(j) => j,
        None => {
            return None;
        },
    };
    let (f, j4) = match parse_filter_exec(s, j3) {
        Some(p) => p,
        None => {
            return None;
        },
    };
    let j5 = match expect_exec(s, j4, &lit_tail_vec()) {
        Some(j) => j,
        None => {
            return None;
        },
    };
    if j5 != s.len() {
        return None;
    }
    Some(Todos { entries, filter: f })
}

/// The characters of `s`, one by one.
fn str_to_chars(s: &str) -> (v: Vec<char>)
    ensures
        v@ == s@,
{
    let n = s.unicode_len();
    let mut v: Vec<char> = Vec::new();
    let mut i: usize = 0;
    while i < n
        invariant
            n == s@.len(),
            i <= n,
            v@ == s@.take(i as int),
        decreases n - i,
    {
        v.push(s.get_char(i));
        proof {
            assert(v@ =~= s@.take(i + 1));
        }
        i += 1;
    }
    proof {
        assert(s@.take(n as int) =~= s@);
    }
    v
}

/// Whether no two entries share an id.
fn ids_unique(entries: &Vec<TodoEntry>) -> (r: bool)
    ensures
        r == crate::todos::unique_ids(entries@.map_values(|e: TodoEntry| e@)),
{
    let ghost vs = entries@.map_values(|e: TodoEntry| e@);
    let n = entries.len();
    let mut a: usize = 0;
    while a < n
        invariant
            n == vs.len(),
            vs == entries@.map_values(|e: TodoEntry| e@),
            a <= n,
            forall|x: int, y: int| 0 <= x < y < n && x < a ==> vs[x].id != vs[y].id,
        decreases n - a,
    {
        let mut b: usize = a + 1;
        while b < n
            invariant
                n == vs.len(),
                vs == entries@.map_values(|e: TodoEntry| e@),
                a < b <= n,
                a < n,
                forall|x: int, y: int| 0 <= x < y < n && x < a ==> vs[x].id != vs[y].id,
                forall|y: int| a < y < b ==> vs[a as int].id != vs[y].id,
            decreases n - b,
        {
            if entries[a].id == entries[b].id {
                proof {
                    assert(vs[a as int].id == vs[b as int].id);
                }
                return false;
            }
            b += 1;
        }
        a += 1;
    }
    true
}

/// The fresh store that `load_todos` falls back to.
fn fresh_store() -> (r: Todos)
    ensures
        r@ == empty_store(),
        r.wf(),
{
    let r = Todos { entries: Vec::new(), filter: Filter::All };
    proof {
        assert(r@.entries =~= empty_store().entries);
    }
    r
}

impl Filter {
    /// The filter's display name, as the UI and the persisted document
    /// spell it.
    pub fn label(&self) -> (r: String)
        ensures
            r@ == filter_name(*self),
    {
        let mut out = String::new();
        push_chars(&mut out, &filter_name_vec(*self));
        proof {
            assert(out@ =~= filter_name(*self));
        }
        out
    }
}

impl Todos {
    /// Loads a store from what the storage layer found under its key: the
    /// text as persisted, or nothing when the key was absent. A document the
    /// grammar rejects, like a missing key, silently yields a fresh empty
    /// store with Filter::All, as does one whose ids collide.
    pub fn load_todos(stored: Option<&str>) -> (r: Self)
        ensures
            r@ == spec_load(
                match stored {
                    Option::Some(s) => Option::Some(s@),
                    Option::None => Option::None,
                },
            ),
            r.wf(),
    {
        match stored {
            None => fresh_store(),
            Some(text) => {
                let chars = str_to_chars(text);
                match parse_store_exec(&chars) {
                    Some(t) => {
                        if ids_unique(&t.entries) {
                            t
                        } else {
                            fresh_store()
                        }
                    },
                    None => fresh_store(),
                }
            },
        }
    }

    /// Renders the store as its persisted JSON document. The caller writes
    /// the returned text to storage under its key.
    pub fn save_todos(&self) -> (r: String)
        ensures
            r@ == encode_store(self@),
    {
        let mut out = String::new();
        push_chars(&mut out, &lit_header_vec());
        push_entries(&mut out, &self.entries, 0);
        push_chars(&mut out, &lit_mid_vec());
        push_chars(&mut out, &filter_name_vec(self.filter));
        push_chars(&mut out, &lit_tail_vec());
        proof {
            assert(self@.entries.skip(0) =~= self@.entries);
            assert(out@ =~= encode_store(self@));
        }
        out
    }
}

} // verus!
