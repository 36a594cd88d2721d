//! Delta records and their self-describing text form.
//!
//! A delta batch is persisted as one JSON array, in a canonical form with
//! no inset whitespace: `[{"operations":[{"insert":[0,"ab"]}],
//! "timestampMs":7}]`. The serializer is specified exactly, character by
//! character, by `json_deltas`; the reader accepts exactly the canonical
//! texts, and only as the batch they are the canonical form of, so a
//! written batch always reads back and re-serializes to the same text.

use vstd::prelude::*;
use vstd::string::StrSliceExecFns;

verus! {

/// One edit operation of a delta record.
#[derive(Debug, Clone, PartialEq)]
pub enum Operation {
    /// Insert `text` at character offset `offset`.
    Insert { offset: u64, text: String },
    /// Delete `len` characters at character offset `offset`.
    Delete { offset: u64, len: u64 },
}

/// An incremental edit record: the operations applied together, and when.
#[derive(Debug, Clone, PartialEq)]
pub struct Delta {
    pub operations: Vec<Operation>,
    pub timestamp_ms: u64,
}

/// Decimal digit character.
pub open spec fn digit_char(d: nat) -> char {
    if d == 0 {
        '0'
    } else if d == 1 {
        '1'
    } else if d == 2 {
        '2'
    } else if d == 3 {
        '3'
    } else if d == 4 {
        '4'
    } else if d == 5 {
        '5'
    } else if d == 6 {
        '6'
    } else if d == 7 {
        '7'
    } else if d == 8 {
        '8'
    } else {
        '9'
    }
}

/// Lower-case hexadecimal digit character.
pub open spec fn hex_char(d: nat) -> char {
    if d < 10 {
        digit_char(d)
    } else if d == 10 {
        'a'
    } else if d == 11 {
        'b'
    } else if d == 12 {
        'c'
    } else if d == 13 {
        'd'
    } else if d == 14 {
        'e'
    } else {
        'f'
    }
}

/// Canonical decimal rendering: no sign, no leading zero.
pub open spec fn dec_digits(n: nat) -> Seq<char>
    decreases n,
{
    if n < 10 {
        seq![digit_char(n)]
    } else {
        dec_digits(n / 10).push(digit_char(n % 10))
    }
}

/// JSON escape of one character: quote and backslash get a backslash,
/// control characters a `\u00..` form, everything else stands verbatim.
pub open spec fn esc_char(c: char) -> Seq<char> {
    if c == '"' {
        seq!['\\', '"']
    } else if c == '\\' {
        seq!['\\', '\\']
    } else if (c as u32) < 32 {
        seq!['\\', 'u', '0', '0', hex_char((c as u32 / 16) as nat), hex_char((c as u32 % 16) as nat)]
    } else {
        seq![c]
    }
}

/// JSON escape of a whole text.
pub open spec fn esc(s: Seq<char>) -> Seq<char>
    decreases s.len(),
{
    if s.len() == 0 {
        Seq::empty()
    } else {
        esc(s.drop_last()) + esc_char(s.last())
    }
}

/// A JSON string literal: quoted escaped text.
pub open spec fn json_string(s: Seq<char>) -> Seq<char> {
    seq!['"'] + esc(s) + seq!['"']
}

pub open spec fn lit_insert() -> Seq<char> {
    seq!['{', '"', 'i', 'n', 's', 'e', 'r', 't', '"', ':', '[']
}

pub open spec fn lit_delete() -> Seq<char> {
    seq!['{', '"', 'd', 'e', 'l', 'e', 't', 'e', '"', ':', '[']
}

pub open spec fn lit_operations() -> Seq<char> {
    seq!['{', '"', 'o', 'p', 'e', 'r', 'a', 't', 'i', 'o', 'n', 's', '"', ':']
}

pub open spec fn lit_timestamp() -> Seq<char> {
    seq![',', '"', 't', 'i', 'm', 'e', 's', 't', 'a', 'm', 'p', 'M', 's', '"', ':']
}

/// Canonical form of one operation.
pub open spec fn json_op(op: Operation) -> Seq<char> {
    match op {
        Operation::Insert { offset, text } => lit_insert() + dec_digits(offset as nat) + seq![',']
            + json_string(text@) + seq![']', '}'],
        Operation::Delete { offset, len } => lit_delete() + dec_digits(offset as nat) + seq![',']
            + dec_digits(len as nat) + seq![']', '}'],
    }
}

/// Comma-joined operations.
pub open spec fn json_ops(ops: Seq<Operation>) -> Seq<char>
    decreases ops.len(),
{
    if ops.len() == 0 {
        Seq::empty()
    } else if ops.len() == 1 {
        json_op(ops[0])
    } else {
        json_ops(ops.drop_last()) + seq![','] + json_op(ops.last())
    }
}

/// Canonical form of one delta record.
pub open spec fn json_delta(d: Delta) -> Seq<char> {
    lit_operations() + seq!['['] + json_ops(d.operations@) + seq![']'] + lit_timestamp()
        + dec_digits(d.timestamp_ms as nat) + seq!['}']
}

/// Comma-joined delta records.
pub open spec fn json_items(ds: Seq<Delta>) -> Seq<char>
    decreases ds.len(),
{
    if ds.len() == 0 {
        Seq::empty()
    } else if ds.len() == 1 {
        json_delta(ds[0])
    } else {
        json_items(ds.drop_last()) + seq![','] + json_delta(ds.last())
    }
}

/// Canonical form of a whole batch: one JSON array.
pub open spec fn json_deltas(ds: Seq<Delta>) -> Seq<char> {
    seq!['['] + json_items(ds) + seq![']']
}

fn digit_of(d: u64) -> (r: char)
    requires
        d < 10,
    ensures
        r == digit_char(d as nat),
{
    if d == 0 {
        '0'
    } else if d == 1 {
        '1'
    } else if d == 2 {
        '2'
    } else if d == 3 {
        '3'
    } else if d == 4 {
        '4'
    } else if d == 5 {
        '5'
    } else if d == 6 {
        '6'
    } else if d == 7 {
        '7'
    } else if d == 8 {
        '8'
    } else {
        '9'
    }
}

fn hex_of(d: u32) -> (r: char)
    requires
        d < 16,
    ensures
        r == hex_char(d as nat),
{
    if d < 10 {
        digit_of(d as u64)
    } else if d == 10 {
        'a'
    } else if d == 11 {
        'b'
    } else if d == 12 {
        'c'
    } else if d == 13 {
        'd'
    } else if d == 14 {
        'e'
    } else {
        'f'
    }
}

fn push_digits(out: &mut Vec<char>, n: u64)
    ensures
        final(out)@ == old(out)@ + dec_digits(n as nat),
    decreases n,
{
    if n < 10 {
        out.push(digit_of(n));
        proof {
            assert(final(out)@ =~= old(out)@ + dec_digits(n as nat));
        }
    } else {
        push_digits(out, n / 10);
        out.push(digit_of(n % 10));
        proof {
            assert(final(out)@ =~= old(out)@ + dec_digits(n as nat));
        }
    }
}

fn push_escaped_char(out: &mut Vec<char>, c: char)
    ensures
        final(out)@ == old(out)@ + esc_char(c),
{
    if c == '"' {
        out.push('\\');
        out.push('"');
    } else if c == '\\' {
        out.push('\\');
        out.push('\\');
    } else {
        let u = c as u32;
        if u < 32 {
            out.push('\\');
            out.push('u');
            out.push('0');
            out.push('0');
            out.push(hex_of(u / 16));
            out.push(hex_of(u % 16));
        } else {
            out.push(c);
        }
    }
    proof {
        assert(final(out)@ =~= old(out)@ + esc_char(c));
    }
}

fn push_json_string(out: &mut Vec<char>, s: &String)
    ensures
        final(out)@ == old(out)@ + json_string(s@),
{
    let ghost base = out@;
    out.push('"');
    let st = s.as_str();
    let n = st.unicode_len();
    let mut i: usize = 0;
    proof {
        assert(esc(s@.take(0)) =~= Seq::<char>::empty());
        assert(out@ =~= base + seq!['"'] + esc(s@.take(0)));
    }
    while i < n
        invariant
            i <= n,
            n == s@.len(),
            st@ == s@,
            out@ == base + seq!['"'] + esc(s@.take(i as int)),
        decreases n - i,
    {
        let c = st.get_char(i);
        push_escaped_char(out, c);
        proof {
            assert(s@.take(i + 1int).drop_last() =~= s@.take(i as int));
            assert(s@.take(i + 1int).last() == s@[i as int]);
            assert(out@ =~= base + seq!['"'] + esc(s@.take(i + 1int)));
        }
        i += 1;
    }
    out.push('"');
    proof {
        assert(s@.take(n as int) =~= s@);
        assert(out@ =~= base + json_string(s@));
    }
}

fn push_op(out: &mut Vec<char>, op: &Operation)
    ensures
        final(out)@ == old(out)@ + json_op(*op),
{
    match op {
        Operation::Insert { offset, text } => {
            out.push('{');
            out.push('"');
            out.push('i');
            out.push('n');
            out.push('s');
            out.push('e');
            out.push('r');
            out.push('t');
            out.push('"');
            out.push(':');
            out.push('[');
            push_digits(out, *offset);
            out.push(',');
            push_json_string(out, text);
            out.push(']');
            out.push('}');
            proof {
                assert(final(out)@ =~= old(out)@ + json_op(*op));
            }
        },
        Operation::Delete { offset, len } => {
            out.push('{');
            out.push('"');
            out.push('d');
            out.push('e');
            out.push('l');
            out.push('e');
            out.push('t');
            out.push('e');
            out.push('"');
            out.push(':');
            out.push('[');
            push_digits(out, *offset);
            out.push(',');
            push_digits(out, *len);
            out.push(']');
            out.push('}');
            proof {
                assert(final(out)@ =~= old(out)@ + json_op(*op));
            }
        },
    }
}

proof fn lemma_json_ops_step(ops: Seq<Operation>, i: int)
    requires
        0 <= i < ops.len(),
    ensures
        json_ops(ops.take(i + 1)) == if i == 0 {
            json_op(ops[0])
        } else {
            json_ops(ops.take(i)) + seq![','] + json_op(ops[i])
        },
{
    assert(ops.take(i + 1).drop_last() =~= ops.take(i));
    assert(ops.take(i + 1).last() == ops[i]);
    if i == 0 {
        assert(json_ops(ops.take(1)) == json_op(ops.take(1)[0]));
    }
}

fn push_ops(out: &mut Vec<char>, ops: &Vec<Operation>)
    ensures
        final(out)@ == old(out)@ + json_ops(ops@),
{
    let ghost base = out@;
    let mut i: usize = 0;
    proof {
        assert(json_ops(ops@.take(0)) =~= Seq::<char>::empty());
        assert(base + json_ops(ops@.take(0)) =~= base);
    }
    while i < ops.len()
        invariant
            i <= ops@.len(),
            out@ == base + json_ops(ops@.take(i as int)),
        decreases ops@.len() - i,
    {
        if i > 0 {
            out.push(',');
        }
        push_op(out, &ops[i]);
        proof {
            lemma_json_ops_step(ops@, i as int);
            assert(out@ =~= base + json_ops(ops@.take(i + 1int)));
        }
        i += 1;
    }
    proof {
        assert(ops@.take(ops@.len() as int) =~= ops@);
    }
}

fn push_delta(out: &mut Vec<char>, d: &Delta)
    ensures
        final(out)@ == old(out)@ + json_delta(*d),
{
    out.push('{');
    out.push('"');
    out.push('o');
    out.push('p');
    out.push('e');
    out.push('r');
    out.push('a');
    out.push('t');
    out.push('i');
    out.push('o');
    out.push('n');
    out.push('s');
    out.push('"');
    out.push(':');
    out.push('[');
    push_ops(out, &d.operations);
    out.push(']');
    out.push(',');
    out.push('"');
    out.push('t');
    out.push('i');
    out.push('m');
    out.push('e');
    out.push('s');
    out.push('t');
    out.push('a');
    out.push('m');
    out.push('p');
    out.push('M');
    out.push('s');
    out.push('"');
    out.push(':');
    push_digits(out, d.timestamp_ms);
    out.push('}');
    proof {
        assert(final(out)@ =~= old(out)@ + json_delta(*d));
    }
}

proof fn lemma_json_items_step(ds: Seq<Delta>, i: int)
    requires
        0 <= i < ds.len(),
    ensures
        json_items(ds.take(i + 1)) == if i == 0 {
            json_delta(ds[0])
        } else {
            json_items(ds.take(i)) + seq![','] + json_delta(ds[i])
        },
{
    assert(ds.take(i + 1).drop_last() =~= ds.take(i));
    assert(ds.take(i + 1).last() == ds[i]);
    if i == 0 {
        assert(json_items(ds.take(1)) == json_delta(ds.take(1)[0]));
    }
}

fn push_deltas(out: &mut Vec<char>, deltas: &Vec<Delta>)
    ensures
        final(out)@ == old(out)@ + json_deltas(deltas@),
{
    let ghost base = out@;
    out.push('[');
    let mut i: usize = 0;
    proof {
        assert(json_items(deltas@.take(0)) =~= Seq::<char>::empty());
        assert(out@ =~= base + seq!['['] + json_items(deltas@.take(0)));
    }
    while i < deltas.len()
        invariant
            i <= deltas@.len(),
            out@ == base + seq!['['] + json_items(deltas@.take(i as int)),
        decreases deltas@.len() - i,
    {
        if i > 0 {
            out.push(',');
        }
        push_delta(out, &deltas[i]);
        proof {
            lemma_json_items_step(deltas@, i as int);
            assert(out@ =~= base + seq!['['] + json_items(deltas@.take(i + 1int)));
        }
        i += 1;
    }
    out.push(']');
    proof {
        assert(deltas@.take(deltas@.len() as int) =~= deltas@);
        assert(out@ =~= base + json_deltas(deltas@));
    }
}

/// Relies on `String: FromIterator<char>`: collecting characters yields
/// the string of exactly those characters, in order.
#[verifier::external_body]
fn chars_to_string(v: &Vec<char>) -> (r: String)
    ensures
        r@ == v@,
{
    v.iter().collect()
}

/// Serialize a delta batch into its canonical JSON array text.
pub fn serialize_deltas(deltas: &Vec<Delta>) -> (r: String)
    ensures
        r@ == json_deltas(deltas@),
{
    let mut out: Vec<char> = Vec::new();
    push_deltas(&mut out, deltas);
    chars_to_string(&out)
}

fn eat(s: &Vec<char>, i: usize, c: char) -> (r: Option<usize>)
    ensures
        r matches Some(j) ==> (j == i + 1 && i < s@.len() && s@[i as int] == c),
        i < s@.len() && s@[i as int] == c ==> r == Some((i + 1) as usize),
{
    if i < s.len() && s[i] == c {
        Some(i + 1)
    } else {
        None
    }
}

/// The character is a decimal digit.
pub open spec fn is_digit_char(c: char) -> bool {
    48 <= c as u32 <= 57
}

/// Numeric value of a digit character.
pub open spec fn digit_val(c: char) -> nat {
    (c as u32 - 48) as nat
}

/// The number a digit string denotes.
pub open spec fn num_of(ds: Seq<char>) -> nat
    decreases ds.len(),
{
    if ds.len() == 0 {
        0
    } else {
        num_of(ds.drop_last()) * 10 + digit_val(ds.last())
    }
}

/// The input carries the canonical rendering of `n` at position `i`,
/// not followed by a further digit.
pub open spec fn number_at(s: Seq<char>, i: int, n: u64) -> bool {
    let enc = dec_digits(n as nat);
    &&& 0 <= i
    &&& i + enc.len() <= s.len()
    &&& s.subrange(i, i + enc.len() as int) == enc
    &&& (i + enc.len() == s.len() || !is_digit_char(s[i + enc.len() as int]))
}

proof fn lemma_digit_char_val(d: nat)
    requires
        d < 10,
    ensures
        is_digit_char(digit_char(d)),
        digit_val(digit_char(d)) == d,
        d >= 1 ==> digit_char(d) != '0',
{
}

/// The canonical rendering is nonempty, all digits, denotes its number,
/// and starts with a zero only for zero itself.
proof fn lemma_dec_digits_wf(n: nat)
    ensures
        dec_digits(n).len() >= 1,
        forall|k: int| 0 <= k < dec_digits(n).len() ==> is_digit_char(#[trigger] dec_digits(n)[k]),
        num_of(dec_digits(n)) == n,
        n >= 1 ==> digit_val(dec_digits(n)[0]) >= 1,
    decreases n,
{
    if n < 10 {
        lemma_digit_char_val(n);
        let enc = dec_digits(n);
        assert(enc =~= seq![digit_char(n)]);
        assert(enc.drop_last() =~= Seq::<char>::empty());
        assert(enc.last() == digit_char(n));
        assert(num_of(Seq::<char>::empty()) == 0);
        assert(num_of(enc) == num_of(enc.drop_last()) * 10 + digit_val(enc.last()));
    } else {
        lemma_dec_digits_wf(n / 10);
        lemma_digit_char_val(n % 10);
        let enc = dec_digits(n);
        let pre = dec_digits(n / 10);
        assert(enc =~= pre.push(digit_char(n % 10)));
        assert(enc.drop_last() =~= pre);
        assert forall|k: int| 0 <= k < enc.len() implies is_digit_char(#[trigger] enc[k]) by {
            if k < pre.len() {
                assert(enc[k] == pre[k]);
            }
        }
        assert(enc.last() == digit_char(n % 10));
        assert(num_of(enc) == num_of(pre) * 10 + digit_val(digit_char(n % 10)));
        assert(enc[0] == pre[0]);
    }
}

/// A digit-string prefix never denotes more than the whole string.
proof fn lemma_num_of_prefix(ds: Seq<char>, m: int)
    requires
        0 <= m <= ds.len(),
    ensures
        num_of(ds.take(m)) <= num_of(ds),
    decreases ds.len() - m,
{
    if m == ds.len() {
        assert(ds.take(m) =~= ds);
    } else {
        lemma_num_of_prefix(ds, m + 1);
        assert(ds.take(m + 1).drop_last() =~= ds.take(m));
        assert(num_of(ds.take(m + 1)) == num_of(ds.take(m)) * 10 + digit_val(ds.take(m + 1).last()));
    }
}

fn parse_u64(s: &Vec<char>, i: usize) -> (r: Option<(u64, usize)>)
    ensures
        r matches Some(p) ==> i < p.1 <= s@.len(),
        forall|n: u64|
            #[trigger] number_at(s@, i as int, n) ==> r == Some(
                (n, (i + dec_digits(n as nat).len()) as usize),
            ),
{
    if i >= s.len() {
        proof {
            assert forall|n: u64| !number_at(s@, i as int, n) by {
                lemma_dec_digits_wf(n as nat);
            }
        }
        return None;
    }
    let u = s[i] as u32;
    if u < 48 || u > 57 {
        proof {
            assert forall|n: u64| !number_at(s@, i as int, n) by {
                lemma_dec_digits_wf(n as nat);
                if number_at(s@, i as int, n) {
                    assert(s@[i as int] == dec_digits(n as nat)[0]);
                }
            }
        }
        return None;
    }
    if u == 48 {
        // a canonical number has no leading zero
        proof {
            assert forall|n: u64| #[trigger] number_at(s@, i as int, n) implies Some(
                (0u64, (i + 1) as usize),
            ) == Some((n, (i + dec_digits(n as nat).len()) as usize)) by {
                lemma_dec_digits_wf(n as nat);
                assert(s@[i as int] == dec_digits(n as nat)[0]);
                assert(digit_val(s@[i as int]) == 0);
                assert(n == 0);
            }
        }
        return Some((0, i + 1));
    }
    let mut val: u64 = 0;
    let mut j: usize = i;
    while j < s.len() && (s[j] as u32) >= 48 && (s[j] as u32) <= 57
        invariant
            i <= j <= s@.len(),
            i < s@.len(),
            is_digit_char(s@[i as int]),
            s@[i as int] != '0',
            forall|n: u64|
                #[trigger] number_at(s@, i as int, n) ==> j - i <= dec_digits(n as nat).len()
                    && val == num_of(dec_digits(n as nat).take(j - i)),
        decreases s@.len() - j,
    {
        let d = (s[j] as u32) - 48;
        let wide = (val as u128) * 10 + (d as u128);
        proof {
            assert forall|n: u64| #[trigger] number_at(s@, i as int, n) implies j - i
                < dec_digits(n as nat).len() && wide == num_of(
                dec_digits(n as nat).take(j - i + 1),
            ) && wide <= n by {
                let enc = dec_digits(n as nat);
                lemma_dec_digits_wf(n as nat);
                if j - i == enc.len() {
                    // the walk would already stand on the non-digit after
                    // the rendering
                    assert(j < s@.len() && is_digit_char(s@[j as int]));
                    assert(false);
                }
                assert(s@[j as int] == enc[j - i]);
                assert(enc.take(j - i + 1).drop_last() =~= enc.take(j - i));
                assert(enc.take(j - i + 1).last() == enc[j - i]);
                assert(digit_val(enc[j - i]) == d);
                lemma_num_of_prefix(enc, j - i + 1);
            }
        }
        if wide > u64::MAX as u128 {
            proof {
                assert forall|n: u64| !number_at(s@, i as int, n) by {
                    if number_at(s@, i as int, n) {
                        assert(wide <= n);
                    }
                }
            }
            return None;
        }
        val = wide as u64;
        j += 1;
    }
    proof {
        assert forall|n: u64| #[trigger] number_at(s@, i as int, n) implies Some((val, j)) == Some(
            (n, (i + dec_digits(n as nat).len()) as usize),
        ) by {
            let enc = dec_digits(n as nat);
            lemma_dec_digits_wf(n as nat);
            if j - i < enc.len() {
                // the loop cannot have stopped inside the rendering
                assert(s@[j as int] == enc[j - i]);
                assert(is_digit_char(s@[j as int]));
                assert(false);
            }
            assert(enc.take(j - i) =~= enc);
        }
    }
    Some((val, j))
}

/// The input carries the canonical string literal of `t` at position `i`.
pub open spec fn string_at(s: Seq<char>, i: int, t: Seq<char>) -> bool {
    &&& 0 <= i
    &&& i + json_string(t).len() <= s.len()
    &&& s.subrange(i, i + json_string(t).len() as int) == json_string(t)
}

proof fn lemma_esc_head(u: Seq<char>)
    requires
        u.len() > 0,
    ensures
        esc(u) == esc_char(u[0]) + esc(u.drop_first()),
    decreases u.len(),
{
    if u.len() == 1 {
        assert(u.drop_last() =~= Seq::<char>::empty());
        assert(u.drop_first() =~= Seq::<char>::empty());
        assert(u.last() == u[0]);
        assert(esc(u) =~= esc_char(u[0]) + esc(u.drop_first()));
    } else {
        lemma_esc_head(u.drop_last());
        assert(u.drop_last()[0] == u[0]);
        assert(u.drop_last().drop_first() =~= u.drop_first().drop_last());
        assert(u.drop_first().last() == u.last());
        assert(esc(u.drop_first()) == esc(u.drop_first().drop_last()) + esc_char(
            u.drop_first().last(),
        ));
        assert(esc(u) =~= esc_char(u[0]) + esc(u.drop_first()));
    }
}

proof fn lemma_esc_split(t: Seq<char>, k: int)
    requires
        0 <= k <= t.len(),
    ensures
        esc(t) == esc(t.take(k)) + esc(t.skip(k)),
    decreases t.len() - k,
{
    if k == t.len() {
        assert(t.take(k) =~= t);
        assert(t.skip(k) =~= Seq::<char>::empty());
        assert(esc(t.take(k)) + esc(t.skip(k)) =~= esc(t));
    } else {
        lemma_esc_split(t, k + 1);
        assert(t.take(k + 1).drop_last() =~= t.take(k));
        assert(t.take(k + 1).last() == t[k]);
        lemma_esc_head(t.skip(k));
        assert(t.skip(k)[0] == t[k]);
        assert(t.skip(k).drop_first() =~= t.skip(k + 1));
        assert(esc(t.take(k)) + esc(t.skip(k)) =~= esc(t.take(k + 1)) + esc(t.skip(k + 1)));
    }
}

/// What the scanner sees at a block boundary: the closing quote when the
/// text is exhausted, otherwise the escape block of the next character.
proof fn lemma_scanner_block(s: Seq<char>, i: int, t: Seq<char>, k: int, j: int)
    requires
        string_at(s, i, t),
        0 <= k <= t.len(),
        j == i + 1 + esc(t.take(k)).len(),
    ensures
        i < j,
        j + esc(t.skip(k)).len() + 1 <= s.len(),
        j + esc(t.skip(k)).len() < s.len(),
        s[j + esc(t.skip(k)).len()] == '"',
        k == t.len() ==> s[j] == '"',
        k < t.len() ==> esc_char(t[k]).len() <= esc(t.skip(k)).len(),
        k < t.len() ==> forall|m: int|
            0 <= m < esc_char(t[k]).len() ==> s[j + m] == esc_char(t[k])[m],
{
    let enc = json_string(t);
    lemma_esc_split(t, k);
    assert(enc.len() == esc(t).len() + 2);
    assert forall|m: int| 0 <= m < enc.len() implies s[i + m] == enc[m] by {
        assert(s.subrange(i, i + enc.len() as int)[m] == s[i + m]);
    }
    assert(enc[esc(t).len() as int + 1] == '"');
    if k == t.len() {
        assert(t.skip(k) =~= Seq::<char>::empty());
        assert(s[j] == enc[1 + esc(t).len() as int]);
    } else {
        lemma_esc_head(t.skip(k));
        assert(t.skip(k)[0] == t[k]);
        assert forall|m: int| 0 <= m < esc_char(t[k]).len() implies s[j + m] == esc_char(t[k])[m]
            by {
            assert(esc(t)[esc(t.take(k)).len() + m] == esc(t.skip(k))[m]);
            assert(esc(t.skip(k))[m] == esc_char(t[k])[m]);
            assert(enc[1 + esc(t.take(k)).len() + m] == esc(t)[esc(t.take(k)).len() + m]);
            assert(s[j + m] == enc[1 + esc(t.take(k)).len() + m]);
        }
    }
}

/// One escaped block never starts with a bare quote, and an escape
/// block's second character tells the three forms apart.
proof fn lemma_esc_char_shape(c: char)
    ensures
        esc_char(c).len() >= 1,
        esc_char(c)[0] != '"',
        esc_char(c)[0] == '\\' || (esc_char(c) =~= seq![c] && c != '"' && c != '\\'),
{
}

fn parse_json_string(s: &Vec<char>, i: usize) -> (r: Option<(String, usize)>)
    ensures
        r matches Some(p) ==> i < p.1 <= s@.len(),
        forall|t: Seq<char>|
            #[trigger] string_at(s@, i as int, t) ==> (r matches Some(p) && p.0@ == t && p.1 == i
                + json_string(t).len()),
{
    proof {
        assert forall|t: Seq<char>| #[trigger] string_at(s@, i as int, t) implies i < s@.len()
            && s@[i as int] == '"' by {
            assert(s@.subrange(i as int, i + json_string(t).len() as int)[0] == s@[i as int]);
            assert(json_string(t)[0] == '"');
        }
    }
    let start = eat(s, i, '"');
    if start.is_none() {
        return None;
    }
    let mut j = start.unwrap();
    let mut buf: Vec<char> = Vec::new();
    proof {
        assert forall|t: Seq<char>| #[trigger] string_at(s@, i as int, t) implies buf@ == t.take(
            buf@.len() as int,
        ) && j == i + 1 + esc(t.take(buf@.len() as int)).len() by {
            assert(t.take(0) =~= Seq::<char>::empty());
            assert(buf@ =~= t.take(0));
            assert(esc(t.take(0)) =~= Seq::<char>::empty());
        }
    }
    loop
        invariant
            i < j <= s@.len(),
            forall|t: Seq<char>|
                #[trigger] string_at(s@, i as int, t) ==> (buf@.len() <= t.len() && buf@ == t.take(
                    buf@.len() as int,
                ) && j == i + 1 + esc(t.take(buf@.len() as int)).len()),
        decreases s@.len() - j,
    {
        let ghost buf0 = buf@;
        let ghost j0 = j as int;
        if j >= s.len() {
            proof {
                assert forall|t: Seq<char>| !string_at(s@, i as int, t) by {
                    if string_at(s@, i as int, t) {
                        lemma_scanner_block(s@, i as int, t, buf0.len() as int, j0);
                    }
                }
            }
            return None;
        }
        let c = s[j];
        if c == '"' {
            proof {
                assert forall|t: Seq<char>| #[trigger] string_at(s@, i as int, t) implies buf0 == t
                    && j0 + 1 == i + json_string(t).len() by {
                    let k = buf0.len() as int;
                    lemma_scanner_block(s@, i as int, t, k, j0);
                    if k < t.len() {
                        lemma_esc_char_shape(t[k]);
                        assert(s@[j0] == esc_char(t[k])[0]);
                        assert(false);
                    }
                    assert(t.take(k) =~= t);
                    lemma_esc_split(t, k);
                    assert(t.skip(k) =~= Seq::<char>::empty());
                }
            }
            return Some((chars_to_string(&buf), j + 1));
        }
        if c == '\\' {
            proof {
                assert forall|t: Seq<char>| #[trigger] string_at(s@, i as int, t) implies buf0.len()
                    < t.len() && esc_char(t[buf0.len() as int])[0] == '\\' by {
                    lemma_scanner_block(s@, i as int, t, buf0.len() as int, j0);
                    lemma_esc_char_shape(t[buf0.len() as int]);
                }
            }
            if j + 1 >= s.len() {
                proof {
                    assert forall|t: Seq<char>| !string_at(s@, i as int, t) by {
                        if string_at(s@, i as int, t) {
                            lemma_scanner_block(s@, i as int, t, buf0.len() as int, j0);
                        }
                    }
                }
                return None;
            }
            let e = s[j + 1];
            if e == '"' {
                buf.push('"');
                j += 2;
                proof {
                    lemma_string_scan_step(s@, i as int, buf0, j0, '"', seq!['\\', '"']);
                    assert(buf@ =~= buf0.push('"'));
                }
            } else if e == '\\' {
                buf.push('\\');
                j += 2;
                proof {
                    lemma_string_scan_step(s@, i as int, buf0, j0, '\\', seq!['\\', '\\']);
                    assert(buf@ =~= buf0.push('\\'));
                }
            } else if e == 'u' {
                if s.len() - j <= 5 {
                    proof {
                        assert forall|t: Seq<char>| !string_at(s@, i as int, t) by {
                            if string_at(s@, i as int, t) {
                                lemma_scanner_block(s@, i as int, t, buf0.len() as int, j0);
                                let b = esc_char(t[buf0.len() as int]);
                                assert(b[1] == s@[j0 + 1]);
                                assert(b.len() == 6);
                            }
                        }
                    }
                    return None;
                }
                proof {
                    assert forall|t: Seq<char>| #[trigger] string_at(s@, i as int, t) implies (
                    (t[buf0.len() as int] as u32) < 32 && s@[j0 + 2] == '0' && s@[j0 + 3] == '0'
                        && hex_val_spec(s@[j0 + 4]) == Some(
                        (t[buf0.len() as int] as u32 / 16) as u32,
                    ) && hex_val_spec(s@[j0 + 5]) == Some(
                        (t[buf0.len() as int] as u32 % 16) as u32,
                    )) by {
                        lemma_scanner_block(s@, i as int, t, buf0.len() as int, j0);
                        let b = esc_char(t[buf0.len() as int]);
                        assert(b[1] == s@[j0 + 1]);
                        let cv = t[buf0.len() as int] as u32;
                        assert(s@[j0 + 4] == hex_char((cv / 16) as nat));
                        assert(s@[j0 + 5] == hex_char((cv % 16) as nat));
                        lemma_hex_char_val((cv / 16) as nat);
                        lemma_hex_char_val((cv % 16) as nat);
                    }
                }
                if s[j + 2] != '0' || s[j + 3] != '0' {
                    return None;
                }
                let h1 = hex_val(s[j + 4]);
                let h2 = hex_val(s[j + 5]);
                if h1.is_none() || h2.is_none() {
                    return None;
                }
                let code = h1.unwrap() * 16 + h2.unwrap();
                if code >= 32 {
                    // the canonical form escapes control characters only
                    return None;
                }
                let decoded = control_char_of(code);
                buf.push(decoded);
                j += 6;
                proof {
                    assert forall|t: Seq<char>| #[trigger] string_at(s@, i as int, t) implies (
                    buf@.len() <= t.len() && buf@ == t.take(buf@.len() as int) && j == i + 1 + esc(
                        t.take(buf@.len() as int),
                    ).len()) by {
                        let k = buf0.len() as int;
                        lemma_scanner_block(s@, i as int, t, k, j0);
                        let cv = t[k] as u32;
                        assert(hex_val_spec(s@[j0 + 4]) == Some((cv / 16) as u32)) by {
                            lemma_hex_char_val((cv / 16) as nat);
                        }
                        assert(hex_val_spec(s@[j0 + 5]) == Some((cv % 16) as u32)) by {
                            lemma_hex_char_val((cv % 16) as nat);
                        }
                        assert(code == cv);
                        assert(decoded as u32 == code);
                        assert(decoded as u32 == t[k] as u32);
                        lemma_char_code_injective(decoded, t[k]);
                        assert(decoded == t[k]);
                        assert(buf@ =~= t.take(k + 1));
                        assert(t.take(k + 1).drop_last() =~= t.take(k));
                        assert(t.take(k + 1).last() == t[k]);
                        assert(esc(t.take(k + 1)) == esc(t.take(k)) + esc_char(t[k]));
                    }
                }
            } else {
                proof {
                    assert forall|t: Seq<char>| !string_at(s@, i as int, t) by {
                        if string_at(s@, i as int, t) {
                            lemma_scanner_block(s@, i as int, t, buf0.len() as int, j0);
                            let b = esc_char(t[buf0.len() as int]);
                            assert(b[1] == s@[j0 + 1]);
                        }
                    }
                }
                return None;
            }
        } else {
            buf.push(c);
            j += 1;
            proof {
                assert forall|t: Seq<char>| #[trigger] string_at(s@, i as int, t) implies (
                buf@.len() <= t.len() && buf@ == t.take(buf@.len() as int) && j == i + 1 + esc(
                    t.take(buf@.len() as int),
                ).len()) by {
                    let k = buf0.len() as int;
                    lemma_scanner_block(s@, i as int, t, k, j0);
                    if k == t.len() {
                        assert(false);
                    }
                    lemma_esc_char_shape(t[k]);
                    assert(s@[j0] == esc_char(t[k])[0]);
                    assert(esc_char(t[k]) =~= seq![t[k]]);
                    assert(t[k] == c);
                    assert(buf@ =~= t.take(k + 1));
                    assert(t.take(k + 1).drop_last() =~= t.take(k));
                    assert(t.take(k + 1).last() == t[k]);
                    assert(esc(t.take(k + 1)) == esc(t.take(k)) + esc_char(t[k]));
                }
            }
        }
    }
}

/// A two-character escape block advances the scan by one text character.
proof fn lemma_string_scan_step(
    s: Seq<char>,
    i: int,
    buf0: Seq<char>,
    j0: int,
    c: char,
    block: Seq<char>,
)
    requires
        block == esc_char(c),
        block.len() == 2,
        forall|t: Seq<char>|
            #[trigger] string_at(s, i, t) ==> (buf0.len() <= t.len() && buf0 == t.take(
                buf0.len() as int,
            ) && j0 == i + 1 + esc(t.take(buf0.len() as int)).len()),
        0 <= j0 + 1 < s.len(),
        s[j0] == block[0],
        s[j0 + 1] == block[1],
        forall|d: char|
            (esc_char(d).len() >= 2 && esc_char(d)[0] == block[0] && esc_char(d)[1] == block[1])
                ==> d == c,
    ensures
        forall|t: Seq<char>|
            #[trigger] string_at(s, i, t) ==> (buf0.push(c).len() <= t.len() && buf0.push(c)
                == t.take(buf0.push(c).len() as int) && j0 + 2 == i + 1 + esc(
                t.take(buf0.push(c).len() as int),
            ).len()),
{
    assert forall|t: Seq<char>| #[trigger] string_at(s, i, t) implies (buf0.push(c).len()
        <= t.len() && buf0.push(c) == t.take(buf0.push(c).len() as int) && j0 + 2 == i + 1 + esc(
        t.take(buf0.push(c).len() as int),
    ).len()) by {
        let k = buf0.len() as int;
        lemma_scanner_block(s, i, t, k, j0);
        lemma_esc_char_shape(t[k]);
        if k == t.len() {
            assert(s[j0] == '"');
            assert(false);
        }
        assert(esc_char(t[k])[0] == block[0]);
        if esc_char(t[k]).len() == 1 {
            assert(esc_char(t[k])[0] != '\\');
            assert(false);
        }
        assert(esc_char(t[k])[1] == s[j0 + 1]);
        assert(t[k] == c);
        assert(buf0.push(c) =~= t.take(k + 1));
        assert(t.take(k + 1).drop_last() =~= t.take(k));
        assert(t.take(k + 1).last() == t[k]);
        assert(esc(t.take(k + 1)) == esc(t.take(k)) + esc_char(t[k]));
    }
}

/// Value of a lower-case hexadecimal digit character.
pub open spec fn hex_val_spec(c: char) -> Option<u32> {
    if 48 <= c as u32 <= 57 {
        Some((c as u32 - 48) as u32)
    } else if 97 <= c as u32 <= 102 {
        Some((c as u32 - 97 + 10) as u32)
    } else {
        None
    }
}

proof fn lemma_hex_char_val(d: nat)
    requires
        d < 16,
    ensures
        hex_val_spec(hex_char(d)) == Some(d as u32),
{
}

fn hex_val(c: char) -> (r: Option<u32>)
    ensures
        r == hex_val_spec(c),
        r matches Some(v) ==> v < 16,
{
    let u = c as u32;
    if u >= 48 && u <= 57 {
        Some(u - 48)
    } else if u >= 97 && u <= 102 {
        Some(u - 97 + 10)
    } else {
        None
    }
}

/// Two characters with one code point are one character.
proof fn lemma_char_code_injective(a: char, b: char)
    requires
        a as u32 == b as u32,
    ensures
        a == b,
{
}

fn control_char_of(code: u32) -> (r: char)
    requires
        code < 32,
    ensures
        r as u32 == code,
{
    (code as u8) as char
}

/// The input carries the canonical form of `op` at position `i`.
pub open spec fn op_at(s: Seq<char>, i: int, op: Operation) -> bool {
    &&& 0 <= i
    &&& i + json_op(op).len() <= s.len()
    &&& s.subrange(i, i + json_op(op).len() as int) == json_op(op)
}

/// The input carries the canonical form of `d` at position `i`.
pub open spec fn delta_at(s: Seq<char>, i: int, d: Delta) -> bool {
    &&& 0 <= i
    &&& i + json_delta(d).len() <= s.len()
    &&& s.subrange(i, i + json_delta(d).len() as int) == json_delta(d)
}

proof fn lemma_at_chars(s: Seq<char>, i: int, enc: Seq<char>)
    requires
        0 <= i,
        i + enc.len() <= s.len(),
        s.subrange(i, i + enc.len() as int) == enc,
    ensures
        forall|m: int| 0 <= m < enc.len() ==> s[i + m] == enc[m],
{
    assert forall|m: int| 0 <= m < enc.len() implies s[i + m] == enc[m] by {
        assert(s.subrange(i, i + enc.len() as int)[m] == s[i + m]);
    }
}

/// Layout of an insert operation's canonical form.
proof fn lemma_op_at_insert(s: Seq<char>, i: int, op: Operation)
    requires
        op_at(s, i, op),
        s[i + 2] == 'i',
    ensures
        op matches Operation::Insert { offset, text } && (forall|m: int|
            0 <= m < 11 ==> s[i + m] == lit_insert()[m]) && number_at(s, i + 11, offset) && s[i
            + 11 + dec_digits(offset as nat).len()] == ',' && string_at(
            s,
            i + 12 + dec_digits(offset as nat).len(),
            text@,
        ) && s[i + 12 + dec_digits(offset as nat).len() + json_string(text@).len()] == ']' && s[i
            + 13 + dec_digits(offset as nat).len() + json_string(text@).len()] == '}' && json_op(
            op,
        ).len() == 14 + dec_digits(offset as nat).len() + json_string(text@).len(),
{
    let enc = json_op(op);
    lemma_at_chars(s, i, enc);
    match op {
        Operation::Delete { offset, len } => {
            lemma_dec_digits_wf(offset as nat);
            assert(enc[2] == lit_delete()[2]);
            assert(false);
        },
        Operation::Insert { offset, text } => {
            let dec = dec_digits(offset as nat);
            let dl = dec.len() as int;
            let js = json_string(text@);
            lemma_dec_digits_wf(offset as nat);
            assert forall|m: int| 0 <= m < 11 implies s[i + m] == lit_insert()[m] by {
                assert(enc[m] == lit_insert()[m]);
            }
            assert forall|q: int| 0 <= q < dl implies s[i + 11 + q] == dec[q] by {
                assert(enc[11 + q] == dec[q]);
            }
            assert(s.subrange(i + 11, i + 11 + dl) =~= dec);
            assert(enc[11 + dl] == ',');
            assert(number_at(s, i + 11, offset));
            assert forall|q: int| 0 <= q < js.len() implies s[i + 12 + dl + q] == js[q] by {
                assert(enc[12 + dl + q] == js[q]);
            }
            assert(s.subrange(i + 12 + dl, i + 12 + dl + js.len() as int) =~= js);
            assert(string_at(s, i + 12 + dl, text@));
            assert(enc[12 + dl + js.len() as int] == ']');
            assert(enc[13 + dl + js.len() as int] == '}');
        },
    }
}

/// Layout of a delete operation's canonical form.
proof fn lemma_op_at_delete(s: Seq<char>, i: int, op: Operation)
    requires
        op_at(s, i, op),
        s[i + 2] != 'i',
    ensures
        op matches Operation::Delete { offset, len } && (forall|m: int|
            0 <= m < 11 ==> s[i + m] == lit_delete()[m]) && number_at(s, i + 11, offset) && s[i + 11
            + dec_digits(offset as nat).len()] == ',' && number_at(
            s,
            i + 12 + dec_digits(offset as nat).len(),
            len,
        ) && s[i + 12 + dec_digits(offset as nat).len() + dec_digits(len as nat).len()] == ']'
            && s[i + 13 + dec_digits(offset as nat).len() + dec_digits(len as nat).len()] == '}'
            && json_op(op).len() == 14 + dec_digits(offset as nat).len() + dec_digits(
            len as nat,
        ).len(),
{
    let enc = json_op(op);
    lemma_at_chars(s, i, enc);
    match op {
        Operation::Insert { offset, text } => {
            lemma_dec_digits_wf(offset as nat);
            assert(enc[2] == lit_insert()[2]);
            assert(false);
        },
        Operation::Delete { offset, len } => {
            let dec1 = dec_digits(offset as nat);
            let dl1 = dec1.len() as int;
            let dec2 = dec_digits(len as nat);
            let dl2 = dec2.len() as int;
            lemma_dec_digits_wf(offset as nat);
            lemma_dec_digits_wf(len as nat);
            assert forall|m: int| 0 <= m < 11 implies s[i + m] == lit_delete()[m] by {
                assert(enc[m] == lit_delete()[m]);
            }
            assert forall|q: int| 0 <= q < dl1 implies s[i + 11 + q] == dec1[q] by {
                assert(enc[11 + q] == dec1[q]);
            }
            assert(s.subrange(i + 11, i + 11 + dl1) =~= dec1);
            assert(enc[11 + dl1] == ',');
            assert(number_at(s, i + 11, offset));
            assert forall|q: int| 0 <= q < dl2 implies s[i + 12 + dl1 + q] == dec2[q] by {
                assert(enc[12 + dl1 + q] == dec2[q]);
            }
            assert(s.subrange(i + 12 + dl1, i + 12 + dl1 + dl2) =~= dec2);
            assert(enc[12 + dl1 + dl2] == ']');
            assert(number_at(s, i + 12 + dl1, len));
            assert(enc[13 + dl1 + dl2] == '}');
        },
    }
}

fn parse_op(s: &Vec<char>, i: usize) -> (r: Option<(Operation, usize)>)
    ensures
        r matches Some(p) ==> i < p.1 <= s@.len(),
        forall|op: Operation|
            #[trigger] op_at(s@, i as int, op) ==> (r matches Some(p) && json_op(p.0) == json_op(
                op,
            ) && p.1 == i + json_op(op).len()),
{
    proof {
        assert forall|op: Operation| #[trigger] op_at(s@, i as int, op) implies i + 14 <= s@.len()
            && s@[i as int] == '{' && s@[i as int + 1] == '"' by {
            lemma_at_chars(s@, i as int, json_op(op));
            match op {
                Operation::Insert { offset, text } => {
                    lemma_dec_digits_wf(offset as nat);
                    assert(json_op(op)[0] == '{');
                    assert(json_op(op)[1] == '"');
                },
                Operation::Delete { offset, len } => {
                    lemma_dec_digits_wf(offset as nat);
                    lemma_dec_digits_wf(len as nat);
                    assert(json_op(op)[0] == '{');
                    assert(json_op(op)[1] == '"');
                },
            }
        }
    }
    let j = eat(s, i, '{')?;
    let j = eat(s, j, '"')?;
    if j < s.len() && s[j] == 'i' {
        proof {
            assert forall|op: Operation| #[trigger] op_at(s@, i as int, op) implies (op matches
                Operation::Insert { offset, text } && (forall|m: int|
                0 <= m < 11 ==> s@[i + m] == lit_insert()[m]) && number_at(s@, i + 11, offset)
                && s@[i + 11 + dec_digits(offset as nat).len()] == ',' && string_at(
                s@,
                i + 12 + dec_digits(offset as nat).len(),
                text@,
            ) && s@[i + 12 + dec_digits(offset as nat).len() + json_string(text@).len()] == ']'
                && s@[i + 13 + dec_digits(offset as nat).len() + json_string(text@).len()] == '}'
                && json_op(op).len() == 14 + dec_digits(offset as nat).len() + json_string(
                text@,
            ).len()) by {
                lemma_op_at_insert(s@, i as int, op);
            }
        }
        let j = eat(s, j, 'i')?;
        let j = eat(s, j, 'n')?;
        let j = eat(s, j, 's')?;
        let j = eat(s, j, 'e')?;
        let j = eat(s, j, 'r')?;
        let j = eat(s, j, 't')?;
        let j = eat(s, j, '"')?;
        let j = eat(s, j, ':')?;
        let j = eat(s, j, '[')?;
        let (offset, j) = parse_u64(s, j)?;
        let j = eat(s, j, ',')?;
        let (text, j) = parse_json_string(s, j)?;
        let j = eat(s, j, ']')?;
        let j = eat(s, j, '}')?;
        let out = Operation::Insert { offset, text };
        proof {
            assert forall|op: Operation| #[trigger] op_at(s@, i as int, op) implies json_op(out)
                == json_op(op) && j == i + json_op(op).len() by {}
        }
        Some((out, j))
    } else {
        proof {
            assert forall|op: Operation| #[trigger] op_at(s@, i as int, op) implies (op matches
                Operation::Delete { offset, len } && (forall|m: int|
                0 <= m < 11 ==> s@[i + m] == lit_delete()[m]) && number_at(s@, i + 11, offset)
                && s@[i + 11 + dec_digits(offset as nat).len()] == ',' && number_at(
                s@,
                i + 12 + dec_digits(offset as nat).len(),
                len,
            ) && s@[i + 12 + dec_digits(offset as nat).len() + dec_digits(len as nat).len()] == ']'
                && s@[i + 13 + dec_digits(offset as nat).len() + dec_digits(len as nat).len()]
                == '}' && json_op(op).len() == 14 + dec_digits(offset as nat).len() + dec_digits(
                len as nat,
            ).len()) by {
                lemma_op_at_delete(s@, i as int, op);
            }
        }
        let j = eat(s, j, 'd')?;
        let j = eat(s, j, 'e')?;
        let j = eat(s, j, 'l')?;
        let j = eat(s, j, 'e')?;
        let j = eat(s, j, 't')?;
        let j = eat(s, j, 'e')?;
        let j = eat(s, j, '"')?;
        let j = eat(s, j, ':')?;
        let j = eat(s, j, '[')?;
        let (offset, j) = parse_u64(s, j)?;
        let j = eat(s, j, ',')?;
        let (len, j) = parse_u64(s, j)?;
        let j = eat(s, j, ']')?;
        let j = eat(s, j, '}')?;
        let out = Operation::Delete { offset, len };
        proof {
            assert forall|op: Operation| #[trigger] op_at(s@, i as int, op) implies json_op(out)
                == json_op(op) && j == i + json_op(op).len() by {}
        }
        Some((out, j))
    }
}

/// Every operation's canonical form opens with a brace.
proof fn lemma_json_op_head(op: Operation)
    ensures
        json_op(op).len() >= 14,
        json_op(op)[0] == '{',
{
    match op {
        Operation::Insert { offset, text } => {
            lemma_dec_digits_wf(offset as nat);
        },
        Operation::Delete { offset, len } => {
            lemma_dec_digits_wf(offset as nat);
            lemma_dec_digits_wf(len as nat);
        },
    }
}

/// Where each operation's form sits inside the joined list form.
proof fn lemma_json_ops_index(ops: Seq<Operation>, w: int)
    requires
        0 <= w <= ops.len(),
    ensures
        json_ops(ops.take(w)).len() <= json_ops(ops).len(),
        forall|q: int|
            0 <= q < json_ops(ops.take(w)).len() ==> json_ops(ops)[q] == json_ops(ops.take(w))[q],
        w < ops.len() ==> json_ops(ops.take(w + 1)).len() == json_ops(ops.take(w)).len() + (if w
            == 0 {
            0int
        } else {
            1int
        }) + json_op(ops[w]).len(),
        w < ops.len() ==> forall|q: int|
            0 <= q < json_op(ops[w]).len() ==> json_ops(ops)[json_ops(ops.take(w)).len() + (if w
                == 0 {
                0int
            } else {
                1int
            }) + q] == json_op(ops[w])[q],
        w < ops.len() ==> json_ops(ops.take(w)).len() + (if w == 0 {
            0int
        } else {
            1int
        }) + json_op(ops[w]).len() <= json_ops(ops).len(),
        0 < w < ops.len() ==> json_ops(ops)[json_ops(ops.take(w)).len() as int] == ',',
    decreases ops.len() - w,
{
    if w == ops.len() {
        assert(ops.take(w) =~= ops);
    } else {
        lemma_json_ops_index(ops, w + 1);
        lemma_json_ops_step(ops, w);
    }
}

/// Same-form operations joined give the same list form.
proof fn lemma_json_ops_congruent(a: Seq<Operation>, b: Seq<Operation>)
    requires
        a.len() == b.len(),
        forall|m: int| 0 <= m < a.len() ==> json_op(#[trigger] a[m]) == json_op(b[m]),
    ensures
        json_ops(a) == json_ops(b),
    decreases a.len(),
{
    if a.len() > 1 {
        assert forall|m: int| 0 <= m < a.drop_last().len() implies json_op(
            #[trigger] a.drop_last()[m],
        ) == json_op(b.drop_last()[m]) by {
            assert(a.drop_last()[m] == a[m]);
            assert(b.drop_last()[m] == b[m]);
        }
        lemma_json_ops_congruent(a.drop_last(), b.drop_last());
        assert(json_op(a.last()) == json_op(b[a.len() - 1]));
    }
}

/// Layout of a delta record's canonical form.
proof fn lemma_delta_layout(s: Seq<char>, i: int, d: Delta)
    requires
        delta_at(s, i, d),
    ensures
        (forall|m: int| 0 <= m < 14 ==> s[i + m] == lit_operations()[m]),
        s[i + 14] == '[',
        forall|q: int|
            0 <= q < json_ops(d.operations@).len() ==> s[i + 15 + q] == json_ops(d.operations@)[q],
        s[i + 15 + json_ops(d.operations@).len()] == ']',
        forall|m: int|
            0 <= m < 15 ==> s[i + 16 + json_ops(d.operations@).len() + m] == lit_timestamp()[m],
        number_at(s, i + 31 + json_ops(d.operations@).len(), d.timestamp_ms),
        s[i + 31 + json_ops(d.operations@).len() + dec_digits(d.timestamp_ms as nat).len()] == '}',
        json_delta(d).len() == 32 + json_ops(d.operations@).len() + dec_digits(
            d.timestamp_ms as nat,
        ).len(),
{
    let enc = json_delta(d);
    let ol = json_ops(d.operations@).len() as int;
    let dec = dec_digits(d.timestamp_ms as nat);
    let dl = dec.len() as int;
    lemma_at_chars(s, i, enc);
    lemma_dec_digits_wf(d.timestamp_ms as nat);
    assert forall|m: int| 0 <= m < 14 implies s[i + m] == lit_operations()[m] by {
        assert(enc[m] == lit_operations()[m]);
    }
    assert(enc[14] == '[');
    assert forall|q: int| 0 <= q < ol implies s[i + 15 + q] == json_ops(d.operations@)[q] by {
        assert(enc[15 + q] == json_ops(d.operations@)[q]);
    }
    assert(enc[15 + ol] == ']');
    assert forall|m: int| 0 <= m < 15 implies s[i + 16 + ol + m] == lit_timestamp()[m] by {
        assert(enc[16 + ol + m] == lit_timestamp()[m]);
    }
    assert forall|q: int| 0 <= q < dl implies s[i + 31 + ol + q] == dec[q] by {
        assert(enc[31 + ol + q] == dec[q]);
    }
    assert(s.subrange(i + 31 + ol, i + 31 + ol + dl) =~= dec);
    assert(enc[31 + ol + dl] == '}');
    assert(number_at(s, i + 31 + ol, d.timestamp_ms));
}

#[verifier::rlimit(60)]
fn parse_delta(s: &Vec<char>, i: usize) -> (r: Option<(Delta, usize)>)
    ensures
        r matches Some(p) ==> i < p.1 <= s@.len(),
        forall|d: Delta|
            #[trigger] delta_at(s@, i as int, d) ==> (r matches Some(p) && json_delta(p.0)
                == json_delta(d) && p.1 == i + json_delta(d).len()),
{
    proof {
        assert forall|d: Delta| #[trigger] delta_at(s@, i as int, d) implies ((forall|m: int|
            0 <= m < 14 ==> s@[i + m] == lit_operations()[m]) && s@[i + 14] == '[' && (forall|
            q: int,
        |
            0 <= q < json_ops(d.operations@).len() ==> s@[i + 15 + q] == json_ops(d.operations@)[q])
            && s@[i + 15 + json_ops(d.operations@).len()] == ']' && (forall|m: int|
            0 <= m < 15 ==> s@[i + 16 + json_ops(d.operations@).len() + m] == lit_timestamp()[m])
            && number_at(s@, i + 31 + json_ops(d.operations@).len(), d.timestamp_ms) && s@[i + 31
            + json_ops(d.operations@).len() + dec_digits(d.timestamp_ms as nat).len()] == '}'
            && json_delta(d).len() == 32 + json_ops(d.operations@).len() + dec_digits(
            d.timestamp_ms as nat,
        ).len()) by {
            lemma_delta_layout(s@, i as int, d);
        }
    }
    let j = eat(s, i, '{')?;
    let j = eat(s, j, '"')?;
    let j = eat(s, j, 'o')?;
    let j = eat(s, j, 'p')?;
    let j = eat(s, j, 'e')?;
    let j = eat(s, j, 'r')?;
    let j = eat(s, j, 'a')?;
    let j = eat(s, j, 't')?;
    let j = eat(s, j, 'i')?;
    let j = eat(s, j, 'o')?;
    let j = eat(s, j, 'n')?;
    let j = eat(s, j, 's')?;
    let j = eat(s, j, '"')?;
    let j = eat(s, j, ':')?;
    let mut j = eat(s, j, '[')?;
    let mut operations: Vec<Operation> = Vec::new();
    proof {
        assert forall|d: Delta| #[trigger] delta_at(s@, i as int, d) implies (d.operations@.len()
            > 0 ==> s@[j as int] == '{') && (d.operations@.len() == 0 ==> s@[j as int] == ']') by {
            if d.operations@.len() > 0 {
                lemma_json_ops_index(d.operations@, 0);
                lemma_json_op_head(d.operations@[0]);
                assert(json_ops(d.operations@.take(0)) =~= Seq::<char>::empty());
                assert(json_ops(d.operations@)[0] == json_op(d.operations@[0])[0]);
            } else {
                assert(json_ops(d.operations@) =~= Seq::<char>::empty());
            }
        }
    }
    if j < s.len() && s[j] == ']' {
        j += 1;
        proof {
            assert forall|d: Delta| #[trigger] delta_at(s@, i as int, d) implies d.operations@.len()
                == 0 && j == i + 16 + json_ops(d.operations@).len() by {
                if d.operations@.len() > 0 {
                    assert(s@[j - 1] == '{');
                }
                assert(json_ops(d.operations@) =~= Seq::<char>::empty());
            }
        }
    } else {
        loop
            invariant_except_break
                forall|d: Delta|
                    #[trigger] delta_at(s@, i as int, d) ==> (operations@.len()
                        < d.operations@.len() && (forall|m: int|
                        0 <= m < operations@.len() ==> json_op(#[trigger] operations@[m])
                            == json_op(d.operations@[m])) && j == i + 15 + json_ops(
                        d.operations@.take(operations@.len() as int),
                    ).len() + (if operations@.len() == 0 {
                        0int
                    } else {
                        1int
                    })),
            invariant
                i < j <= s@.len(),
            ensures
                i < j <= s@.len(),
                forall|d: Delta|
                    #[trigger] delta_at(s@, i as int, d) ==> (operations@.len()
                        == d.operations@.len() && (forall|m: int|
                        0 <= m < operations@.len() ==> json_op(#[trigger] operations@[m])
                            == json_op(d.operations@[m])) && j == i + 16 + json_ops(
                        d.operations@,
                    ).len()),
            decreases s@.len() - j,
        {
            let ghost w0 = operations@.len() as int;
            proof {
                assert forall|d: Delta| #[trigger] delta_at(s@, i as int, d) implies op_at(
                    s@,
                    j as int,
                    d.operations@[w0],
                ) by {
                    lemma_delta_layout(s@, i as int, d);
                    lemma_json_ops_index(d.operations@, w0);
                    lemma_json_ops_index(d.operations@, w0 + 1);
                    let base = i + 15;
                    let off = json_ops(d.operations@.take(w0)).len() + (if w0 == 0 {
                        0int
                    } else {
                        1int
                    });
                    let op = d.operations@[w0];
                    assert(off + json_op(op).len() <= json_ops(d.operations@).len());
                    assert forall|q: int| 0 <= q < json_op(op).len() implies s@[base + off + q]
                        == json_op(op)[q] by {
                        let qq = off + q;
                        assert(0 <= qq < json_ops(d.operations@).len());
                        assert(s@[i + 15 + qq] == json_ops(d.operations@)[qq]);
                        assert(json_ops(d.operations@)[off + q] == json_op(op)[q]);
                    }
                    assert(s@.subrange(j as int, j + json_op(op).len() as int) =~= json_op(op));
                }
            }
            let (op, j2) = parse_op(s, j)?;
            operations.push(op);
            j = j2;
            let ghost jnow = j as int;
            proof {
                assert forall|d: Delta| #[trigger] delta_at(s@, i as int, d) implies (forall|
                    m: int,
                |
                    0 <= m < operations@.len() ==> json_op(#[trigger] operations@[m]) == json_op(
                        d.operations@[m],
                    )) && jnow == i + 15 + json_ops(d.operations@.take(w0 + 1)).len() && (w0 + 1
                    < d.operations@.len() ==> (jnow < s@.len() && s@[jnow] == ',')) && (w0 + 1
                    == d.operations@.len() ==> s@[jnow] == ']') by {
                    lemma_delta_layout(s@, i as int, d);
                    lemma_json_ops_index(d.operations@, w0);
                    assert(operations@[w0] == op);
                    if w0 + 1 < d.operations@.len() {
                        lemma_json_ops_index(d.operations@, w0 + 1);
                        let qq = json_ops(d.operations@.take(w0 + 1)).len() as int;
                        assert(json_ops(d.operations@)[qq] == ',');
                        assert(qq < json_ops(d.operations@).len());
                        assert(s@[i + 15 + qq] == json_ops(d.operations@)[qq]);
                        assert(jnow == i + 15 + qq);
                    } else {
                        assert(d.operations@.take(w0 + 1) =~= d.operations@);
                        assert(s@[i + 15 + json_ops(d.operations@).len()] == ']');
                    }
                }
            }
            if j < s.len() && s[j] == ',' {
                j += 1;
                proof {
                    assert forall|d: Delta| #[trigger] delta_at(s@, i as int, d) implies
                        operations@.len() < d.operations@.len() && j == i + 15 + json_ops(
                        d.operations@.take(operations@.len() as int),
                    ).len() + 1 by {
                        assert(s@[jnow] == ',');
                        if w0 + 1 == d.operations@.len() {
                            assert(s@[jnow] == ']');
                            assert(false);
                        }
                        assert(operations@.len() as int == w0 + 1);
                    }
                }
            } else {
                proof {
                    assert forall|d: Delta| #[trigger] delta_at(s@, i as int, d) implies w0 + 1
                        == d.operations@.len() && s@[j as int] == ']' && j == i + 15 + json_ops(
                        d.operations@,
                    ).len() by {
                        assert(d.operations@.take(w0 + 1).len() == w0 + 1);
                        if w0 + 1 == d.operations@.len() {
                            assert(d.operations@.take(w0 + 1) =~= d.operations@);
                        }
                    }
                }
                j = eat(s, j, ']')?;
                break;
            }
        }
    }
    proof {
        assert forall|d: Delta| #[trigger] delta_at(s@, i as int, d) implies (json_ops(operations@)
            == json_ops(d.operations@) && j == i + 16 + json_ops(d.operations@).len() && (forall|
            m: int,
        |
            0 <= m < 15 ==> s@[j + m] == lit_timestamp()[m]) && number_at(
            s@,
            j + 15,
            d.timestamp_ms,
        ) && s@[j + 15 + dec_digits(d.timestamp_ms as nat).len()] == '}' && i + json_delta(d).len()
            == j + 16 + dec_digits(d.timestamp_ms as nat).len()) by {
            lemma_delta_layout(s@, i as int, d);
            lemma_json_ops_congruent(operations@, d.operations@);
            assert forall|m: int| 0 <= m < 15 implies s@[j + m] == lit_timestamp()[m] by {
                assert(s@[i + 16 + json_ops(d.operations@).len() + m] == lit_timestamp()[m]);
            }
            assert(number_at(s@, i + 31 + json_ops(d.operations@).len(), d.timestamp_ms));
            assert(s@[i + 31 + json_ops(d.operations@).len() + dec_digits(
                d.timestamp_ms as nat,
            ).len()] == '}');
        }
    }
    let j = eat(s, j, ',')?;
    let j = eat(s, j, '"')?;
    let j = eat(s, j, 't')?;
    let j = eat(s, j, 'i')?;
    let j = eat(s, j, 'm')?;
    let j = eat(s, j, 'e')?;
    let j = eat(s, j, 's')?;
    let j = eat(s, j, 't')?;
    let j = eat(s, j, 'a')?;
    let j = eat(s, j, 'm')?;
    let j = eat(s, j, 'p')?;
    let j = eat(s, j, 'M')?;
    let j = eat(s, j, 's')?;
    let j = eat(s, j, '"')?;
    let j = eat(s, j, ':')?;
    let (timestamp_ms, j) = parse_u64(s, j)?;
    let j = eat(s, j, '}')?;
    let out = Delta { operations, timestamp_ms };
    proof {
        assert forall|d: Delta| #[trigger] delta_at(s@, i as int, d) implies json_delta(out)
            == json_delta(d) && j == i + json_delta(d).len() by {
            lemma_json_ops_congruent(out.operations@, d.operations@);
        }
    }
    Some((out, j))
}

/// Every delta record's canonical form opens with a brace.
proof fn lemma_json_delta_head(d: Delta)
    ensures
        json_delta(d).len() >= 32,
        json_delta(d)[0] == '{',
{
    lemma_dec_digits_wf(d.timestamp_ms as nat);
}

/// Where each record's form sits inside the joined batch form.
proof fn lemma_json_items_index(ds: Seq<Delta>, w: int)
    requires
        0 <= w <= ds.len(),
    ensures
        json_items(ds.take(w)).len() <= json_items(ds).len(),
        forall|q: int|
            0 <= q < json_items(ds.take(w)).len() ==> json_items(ds)[q] == json_items(
                ds.take(w),
            )[q],
        w < ds.len() ==> json_items(ds.take(w + 1)).len() == json_items(ds.take(w)).len() + (if w
            == 0 {
            0int
        } else {
            1int
        }) + json_delta(ds[w]).len(),
        w < ds.len() ==> forall|q: int|
            0 <= q < json_delta(ds[w]).len() ==> json_items(ds)[json_items(ds.take(w)).len() + (if w
                == 0 {
                0int
            } else {
                1int
            }) + q] == json_delta(ds[w])[q],
        w < ds.len() ==> json_items(ds.take(w)).len() + (if w == 0 {
            0int
        } else {
            1int
        }) + json_delta(ds[w]).len() <= json_items(ds).len(),
        0 < w < ds.len() ==> json_items(ds)[json_items(ds.take(w)).len() as int] == ',',
    decreases ds.len() - w,
{
    if w == ds.len() {
        assert(ds.take(w) =~= ds);
    } else {
        lemma_json_items_index(ds, w + 1);
        lemma_json_items_step(ds, w);
    }
}

/// Same-form records joined give the same batch form.
proof fn lemma_json_items_congruent(a: Seq<Delta>, b: Seq<Delta>)
    requires
        a.len() == b.len(),
        forall|m: int| 0 <= m < a.len() ==> json_delta(#[trigger] a[m]) == json_delta(b[m]),
    ensures
        json_items(a) == json_items(b),
    decreases a.len(),
{
    if a.len() > 1 {
        assert forall|m: int| 0 <= m < a.drop_last().len() implies json_delta(
            #[trigger] a.drop_last()[m],
        ) == json_delta(b.drop_last()[m]) by {
            assert(a.drop_last()[m] == a[m]);
            assert(b.drop_last()[m] == b[m]);
        }
        lemma_json_items_congruent(a.drop_last(), b.drop_last());
        assert(json_delta(a.last()) == json_delta(b[a.len() - 1]));
    }
}

/// Layout of a whole batch's canonical form.
proof fn lemma_batch_layout(s: Seq<char>, ds: Seq<Delta>)
    requires
        s == json_deltas(ds),
    ensures
        s.len() == 2 + json_items(ds).len(),
        s[0] == '[',
        forall|q: int| 0 <= q < json_items(ds).len() ==> s[1 + q] == json_items(ds)[q],
        s[1 + json_items(ds).len() as int] == ']',
{
    assert forall|q: int| 0 <= q < json_items(ds).len() implies s[1 + q] == json_items(ds)[q] by {
        assert(json_deltas(ds)[1 + q] == json_items(ds)[q]);
    }
    assert(json_deltas(ds)[0] == '[');
    assert(json_deltas(ds)[1 + json_items(ds).len() as int] == ']');
}

#[verifier::rlimit(60)]
fn parse_deltas_chars(s: &Vec<char>) -> (r: Option<Vec<Delta>>)
    ensures
        forall|ds: Seq<Delta>|
            s@ == #[trigger] json_deltas(ds) ==> (r matches Some(out) && json_deltas(out@) == s@),
{
    proof {
        assert forall|ds: Seq<Delta>| s@ == #[trigger] json_deltas(ds) implies 0 < s@.len()
            && s@[0] == '[' && (ds.len() > 0 ==> s@[1] == '{') && (ds.len() == 0 ==> s@[1] == ']')
            by {
            lemma_batch_layout(s@, ds);
            if ds.len() > 0 {
                lemma_json_items_index(ds, 0);
                lemma_json_delta_head(ds[0]);
                assert(json_items(ds.take(0)) =~= Seq::<char>::empty());
                assert(json_items(ds)[0] == json_delta(ds[0])[0]);
                assert(s@[1 + 0int] == json_items(ds)[0]);
            } else {
                assert(json_items(ds) =~= Seq::<char>::empty());
            }
        }
    }
    let mut j = eat(s, 0, '[')?;
    let mut deltas: Vec<Delta> = Vec::new();
    if j < s.len() && s[j] == ']' {
        j += 1;
        proof {
            assert forall|ds: Seq<Delta>| s@ == #[trigger] json_deltas(ds) implies ds.len() == 0
                && j == 2 + json_items(ds).len() by {
                if ds.len() > 0 {
                    assert(s@[1] == '{');
                }
                assert(json_items(ds) =~= Seq::<char>::empty());
            }
        }
    } else {
        loop
            invariant_except_break
                forall|ds: Seq<Delta>|
                    s@ == #[trigger] json_deltas(ds) ==> (deltas@.len() < ds.len() && (forall|
                        m: int,
                    |
                        0 <= m < deltas@.len() ==> json_delta(#[trigger] deltas@[m]) == json_delta(
                            ds[m],
                        )) && j == 1 + json_items(ds.take(deltas@.len() as int)).len() + (if deltas@.len()
                        == 0 {
                        0int
                    } else {
                        1int
                    })),
            invariant
                0 < j <= s@.len(),
            ensures
                0 < j <= s@.len(),
                forall|ds: Seq<Delta>|
                    s@ == #[trigger] json_deltas(ds) ==> (deltas@.len() == ds.len() && (forall|
                        m: int,
                    |
                        0 <= m < deltas@.len() ==> json_delta(#[trigger] deltas@[m]) == json_delta(
                            ds[m],
                        )) && j == 2 + json_items(ds).len()),
            decreases s@.len() - j,
        {
            let ghost w0 = deltas@.len() as int;
            proof {
                assert forall|ds: Seq<Delta>| s@ == #[trigger] json_deltas(ds) implies delta_at(
                    s@,
                    j as int,
                    ds[w0],
                ) by {
                    lemma_batch_layout(s@, ds);
                    lemma_json_items_index(ds, w0);
                    lemma_json_items_index(ds, w0 + 1);
                    let off = json_items(ds.take(w0)).len() + (if w0 == 0 {
                        0int
                    } else {
                        1int
                    });
                    let d = ds[w0];
                    assert(off + json_delta(d).len() <= json_items(ds).len());
                    assert forall|q: int| 0 <= q < json_delta(d).len() implies s@[1 + off + q]
                        == json_delta(d)[q] by {
                        let qq = off + q;
                        assert(0 <= qq < json_items(ds).len());
                        assert(s@[1 + qq] == json_items(ds)[qq]);
                        assert(json_items(ds)[off + q] == json_delta(d)[q]);
                    }
                    assert(s@.subrange(j as int, j + json_delta(d).len() as int) =~= json_delta(
                        d,
                    ));
                }
            }
            let (d, j2) = parse_delta(s, j)?;
            deltas.push(d);
            j = j2;
            let ghost jnow = j as int;
            proof {
                assert forall|ds: Seq<Delta>| s@ == #[trigger] json_deltas(ds) implies (forall|
                    m: int,
                |
                    0 <= m < deltas@.len() ==> json_delta(#[trigger] deltas@[m]) == json_delta(
                        ds[m],
                    )) && jnow == 1 + json_items(ds.take(w0 + 1)).len() && (w0 + 1 < ds.len() ==> (
                jnow < s@.len() && s@[jnow] == ',')) && (w0 + 1 == ds.len() ==> s@[jnow] == ']')
                    by {
                    lemma_batch_layout(s@, ds);
                    lemma_json_items_index(ds, w0);
                    assert(deltas@[w0] == d);
                    if w0 + 1 < ds.len() {
                        lemma_json_items_index(ds, w0 + 1);
                        let qq = json_items(ds.take(w0 + 1)).len() as int;
                        assert(json_items(ds)[qq] == ',');
                        assert(qq < json_items(ds).len());
                        assert(s@[1 + qq] == json_items(ds)[qq]);
                        assert(jnow == 1 + qq);
                    } else {
                        assert(ds.take(w0 + 1) =~= ds);
                        assert(s@[1 + json_items(ds).len() as int] == ']');
                    }
                }
            }
            if j < s.len() && s[j] == ',' {
                j += 1;
                proof {
                    assert forall|ds: Seq<Delta>| s@ == #[trigger] json_deltas(ds) implies
                        deltas@.len() < ds.len() && j == 1 + json_items(
                        ds.take(deltas@.len() as int),
                    ).len() + 1 by {
                        assert(s@[jnow] == ',');
                        if w0 + 1 == ds.len() {
                            assert(s@[jnow] == ']');
                            assert(false);
                        }
                        assert(deltas@.len() as int == w0 + 1);
                    }
                }
            } else {
                proof {
                    assert forall|ds: Seq<Delta>| s@ == #[trigger] json_deltas(ds) implies w0 + 1
                        == ds.len() && s@[j as int] == ']' && j == 1 + json_items(ds).len() by {
                        assert(ds.take(w0 + 1).len() == w0 + 1);
                        if w0 + 1 == ds.len() {
                            assert(ds.take(w0 + 1) =~= ds);
                        }
                    }
                }
                j = eat(s, j, ']')?;
                break;
            }
        }
    }
    if j == s.len() {
        proof {
            assert forall|ds: Seq<Delta>| s@ == #[trigger] json_deltas(ds) implies json_deltas(
                deltas@,
            ) == s@ by {
                lemma_batch_layout(s@, ds);
                lemma_json_items_congruent(deltas@, ds);
            }
        }
        Some(deltas)
    } else {
        proof {
            assert forall|ds: Seq<Delta>| s@ != #[trigger] json_deltas(ds) by {
                if s@ == json_deltas(ds) {
                    lemma_batch_layout(s@, ds);
                }
            }
        }
        None
    }
}

fn str_chars(s: &str) -> (r: Vec<char>)
    ensures
        r@ == s@,
{
    let n = s.unicode_len();
    let mut r: Vec<char> = Vec::new();
    let mut i: usize = 0;
    proof {
        assert(r@ =~= s@.take(0));
    }
    while i < n
        invariant
            i <= n,
            n == s@.len(),
            r@ == s@.take(i as int),
        decreases n - i,
    {
        r.push(s.get_char(i));
        proof {
            assert(r@ =~= s@.take(i + 1int));
        }
        i += 1;
    }
    proof {
        assert(s@.take(n as int) =~= s@);
    }
    r
}

fn char_vecs_equal(a: &Vec<char>, b: &Vec<char>) -> (r: bool)
    ensures
        r == (a@ == b@),
{
    if a.len() != b.len() {
        return false;
    }
    let mut i: usize = 0;
    while i < a.len()
        invariant
            i <= a@.len(),
            a@.len() == b@.len(),
            forall|k: int| 0 <= k < i ==> a@[k] == b@[k],
        decreases a@.len() - i,
    {
        if a[i] != b[i] {
            return false;
        }
        i += 1;
    }
    proof {
        assert(a@ =~= b@);
    }
    true
}

/// Read a delta batch back from its text form.
///
/// Exactly the canonical batch texts are accepted: a successful read's
/// batch re-serializes to the given text, and every text that is the
/// canonical form of some batch — every output of `serialize_deltas` —
/// is read successfully. Together the two directions give the round
/// trip: a written batch reads back as one with the same canonical form.
pub fn deserialize_deltas(s: &str) -> (r: Option<Vec<Delta>>)
    ensures
        r matches Some(ds) ==> json_deltas(ds@) == s@,
        forall|ds: Seq<Delta>| s@ == #[trigger] json_deltas(ds) ==> r is Some,
{
    let chars = str_chars(s);
    let parsed = parse_deltas_chars(&chars)?;
    let mut again: Vec<char> = Vec::new();
    push_deltas(&mut again, &parsed);
    if !char_vecs_equal(&again, &chars) {
        return None;
    }
    Some(parsed)
}

} // verus!
