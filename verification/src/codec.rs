//! Textual record format for the persisted session-identity store.
//!
//! A store with entries `(id, name)` is written as a concatenation of
//! records, each a run of lowercase hex digits:
//!
//! * 32 digits: the 128-bit session id,
//! * 8 digits: the number of characters in the username,
//! * 8 digits per username character: its Unicode scalar value.
//!
//! Decoding is total: any text that does not parse denotes no store at all.
//! [`lemma_decode_encode`] proves the round trip: decoding an encoded store
//! yields exactly the entries that were written.

use vstd::prelude::*;

verus! {

use vstd::arithmetic::div_mod::lemma_fundamental_div_mod;

pub open spec fn hex_char(d: nat) -> char {
    if d == 0 { '0' }
    else if d == 1 { '1' }
    else if d == 2 { '2' }
    else if d == 3 { '3' }
    else if d == 4 { '4' }
    else if d == 5 { '5' }
    else if d == 6 { '6' }
    else if d == 7 { '7' }
    else if d == 8 { '8' }
    else if d == 9 { '9' }
    else if d == 10 { 'a' }
    else if d == 11 { 'b' }
    else if d == 12 { 'c' }
    else if d == 13 { 'd' }
    else if d == 14 { 'e' }
    else { 'f' }
}

pub open spec fn hex_val(c: char) -> Option<nat> {
    if c == '0' { Some(0nat) }
    else if c == '1' { Some(1nat) }
    else if c == '2' { Some(2nat) }
    else if c == '3' { Some(3nat) }
    else if c == '4' { Some(4nat) }
    else if c == '5' { Some(5nat) }
    else if c == '6' { Some(6nat) }
    else if c == '7' { Some(7nat) }
    else if c == '8' { Some(8nat) }
    else if c == '9' { Some(9nat) }
    else if c == 'a' { Some(10nat) }
    else if c == 'b' { Some(11nat) }
    else if c == 'c' { Some(12nat) }
    else if c == 'd' { Some(13nat) }
    else if c == 'e' { Some(14nat) }
    else if c == 'f' { Some(15nat) }
    else { None }
}

pub open spec fn pow16(w: nat) -> nat
    decreases w,
{
    if w == 0 { 1 } else { 16 * pow16((w - 1) as nat) }
}

/// The `w` least significant hex digits of `v`, most significant first.
pub open spec fn hex_digits(v: nat, w: nat) -> Seq<char>
    decreases w,
{
    if w == 0 {
        Seq::empty()
    } else {
        hex_digits(v / 16, (w - 1) as nat).push(hex_char(v % 16))
    }
}

/// The value of a run of hex digits, most significant first.
pub open spec fn parse_hex(s: Seq<char>) -> Option<nat>
    decreases s.len(),
{
    if s.len() == 0 {
        Some(0nat)
    } else {
        match (parse_hex(s.drop_last()), hex_val(s.last())) {
            (Some(h), Some(d)) => Some(h * 16 + d),
            _ => None,
        }
    }
}

/// A Unicode scalar value: what a `char` may hold.
pub open spec fn is_scalar(v: nat) -> bool {
    v < 0xD800 || (0xE000 <= v < 0x110000)
}

/// A username, each character as 8 hex digits of its scalar value.
pub open spec fn encode_name(name: Seq<char>) -> Seq<char>
    decreases name.len(),
{
    if name.len() == 0 {
        Seq::empty()
    } else {
        hex_digits(name[0] as u32 as nat, 8) + encode_name(name.drop_first())
    }
}

/// Decode a run of 8-digit scalar values back into characters.
pub open spec fn decode_name(s: Seq<char>) -> Option<Seq<char>>
    decreases s.len(),
{
    if s.len() == 0 {
        Some(Seq::<char>::empty())
    } else if s.len() < 8 {
        None
    } else {
        match parse_hex(s.subrange(0, 8)) {
            Some(v) => if is_scalar(v) {
                match decode_name(s.subrange(8, s.len() as int)) {
                    Some(rest) => Some(seq![(v as u32) as char] + rest),
                    None => None,
                }
            } else {
                None
            },
            None => None,
        }
    }
}

/// One record: session id, username length, username characters.
pub open spec fn encode_entry(id: u128, name: Seq<char>) -> Seq<char> {
    hex_digits(id as nat, 32) + hex_digits(name.len(), 8) + encode_name(name)
}

/// The whole store: its records in order.
pub open spec fn spec_encode(entries: Seq<(u128, Seq<char>)>) -> Seq<char>
    decreases entries.len(),
{
    if entries.len() == 0 {
        Seq::empty()
    } else {
        encode_entry(entries[0].0, entries[0].1) + spec_encode(entries.drop_first())
    }
}

/// Decode a concatenation of records; `None` on any malformed text.
pub open spec fn spec_decode(s: Seq<char>) -> Option<Seq<(u128, Seq<char>)>>
    decreases s.len(),
{
    if s.len() == 0 {
        Some(Seq::<(u128, Seq<char>)>::empty())
    } else if s.len() < 40 {
        None
    } else {
        match (parse_hex(s.subrange(0, 32)), parse_hex(s.subrange(32, 40))) {
            (Some(id), Some(l)) => if s.len() >= 40 + 8 * l {
                match decode_name(s.subrange(40, 40 + 8 * l as int)) {
                    Some(name) => match spec_decode(s.subrange(40 + 8 * l as int, s.len() as int)) {
                        Some(rest) => Some(seq![(id as u128, name)] + rest),
                        None => None,
                    },
                    None => None,
                }
            } else {
                None
            },
            _ => None,
        }
    }
}

pub proof fn lemma_pow16_vals()
    ensures
        pow16(8) == 0x1_0000_0000,
        pow16(32) == 0x1_0000_0000_0000_0000_0000_0000_0000_0000,
{
    reveal_with_fuel(pow16, 33);
}

pub proof fn lemma_hex_digits_len(v: nat, w: nat)
    ensures
        hex_digits(v, w).len() == w,
    decreases w,
{
    if w > 0 {
        lemma_hex_digits_len(v / 16, (w - 1) as nat);
    }
}

proof fn lemma_hex_char_val(d: nat)
    requires
        d < 16,
    ensures
        hex_val(hex_char(d)) == Some(d),
{
}

/// Parsing the digits of an in-range value gives the value back.
pub proof fn lemma_parse_hex_digits(v: nat, w: nat)
    requires
        v < pow16(w),
    ensures
        parse_hex(hex_digits(v, w)) == Some(v),
    decreases w,
{
    if w == 0 {
        assert(v == 0);
        assert(hex_digits(v, w) =~= Seq::<char>::empty());
    } else {
        lemma_fundamental_div_mod(v as int, 16);
        assert(v / 16 < pow16((w - 1) as nat)) by (nonlinear_arith)
            requires
                v == 16 * (v as int / 16) + v as int % 16,
                0 <= v as int % 16 < 16,
                v < 16 * pow16((w - 1) as nat);
        lemma_parse_hex_digits(v / 16, (w - 1) as nat);
        lemma_hex_char_val(v % 16);
        let s = hex_digits(v, w);
        assert(s.drop_last() =~= hex_digits(v / 16, (w - 1) as nat));
        assert(s.last() == hex_char(v % 16));
        assert((v / 16) * 16 + v % 16 == v) by (nonlinear_arith)
            requires v == 16 * (v as int / 16) + v as int % 16;
    }
}

/// A parsed value is bounded by the width of its digit run.
pub proof fn lemma_parse_hex_bound(s: Seq<char>)
    ensures
        parse_hex(s) matches Some(v) ==> v < pow16(s.len()),
    decreases s.len(),
{
    if s.len() > 0 {
        lemma_parse_hex_bound(s.drop_last());
        if parse_hex(s) is Some {
            let h = parse_hex(s.drop_last())->Some_0;
            let d = hex_val(s.last())->Some_0;
            assert(d < 16);
            assert(h * 16 + d < 16 * pow16((s.len() - 1) as nat)) by (nonlinear_arith)
                requires
                    h < pow16((s.len() - 1) as nat),
                    d < 16;
        }
    }
}

pub proof fn lemma_encode_name_push(name: Seq<char>, c: char)
    ensures
        encode_name(name.push(c)) == encode_name(name) + hex_digits(c as u32 as nat, 8),
    decreases name.len(),
{
    if name.len() == 0 {
        assert(name.push(c)[0] == c);
        assert(name.push(c).drop_first() =~= Seq::<char>::empty());
        assert(encode_name(name.push(c)) == hex_digits(name.push(c)[0] as u32 as nat, 8)
            + encode_name(name.push(c).drop_first()));
        assert(encode_name(name.push(c)) =~= encode_name(name) + hex_digits(c as u32 as nat, 8));
    } else {
        assert(name.push(c)[0] == name[0]);
        assert(name.push(c).drop_first() =~= name.drop_first().push(c));
        lemma_encode_name_push(name.drop_first(), c);
        assert(encode_name(name.push(c)) == hex_digits(name[0] as u32 as nat, 8)
            + encode_name(name.drop_first().push(c)));
        assert(encode_name(name.push(c)) =~= encode_name(name) + hex_digits(c as u32 as nat, 8));
    }
}

pub proof fn lemma_encode_name_len(name: Seq<char>)
    ensures
        encode_name(name).len() == 8 * name.len(),
    decreases name.len(),
{
    if name.len() > 0 {
        lemma_hex_digits_len(name[0] as u32 as nat, 8);
        lemma_encode_name_len(name.drop_first());
    }
}

/// Every `char` is a Unicode scalar value.
proof fn lemma_char_is_scalar(c: char)
    ensures
        is_scalar(c as u32 as nat),
        (c as u32 as nat) < pow16(8),
{
    vstd::utf8::char_is_scalar(c);
    lemma_pow16_vals();
}

/// Decoding an encoded username gives the username back.
proof fn lemma_decode_encode_name(name: Seq<char>)
    ensures
        decode_name(encode_name(name)) == Some(name),
    decreases name.len(),
{
    if name.len() == 0 {
        assert(decode_name(encode_name(name)) =~= Some(name));
    } else {
        let c = name[0];
        let s = encode_name(name);
        lemma_char_is_scalar(c);
        lemma_hex_digits_len(c as u32 as nat, 8);
        lemma_encode_name_len(name.drop_first());
        lemma_encode_name_len(name);
        assert(s.subrange(0, 8) =~= hex_digits(c as u32 as nat, 8));
        lemma_parse_hex_digits(c as u32 as nat, 8);
        assert(s.subrange(8, s.len() as int) =~= encode_name(name.drop_first()));
        lemma_decode_encode_name(name.drop_first());
        vstd::utf8::char_u32_cast(c, c as u32);
        assert(((c as u32 as nat) as u32) as char == c);
        assert(seq![c] + name.drop_first() =~= name);
    }
}

pub proof fn lemma_spec_encode_push(entries: Seq<(u128, Seq<char>)>, e: (u128, Seq<char>))
    ensures
        spec_encode(entries.push(e)) == spec_encode(entries) + encode_entry(e.0, e.1),
    decreases entries.len(),
{
    if entries.len() == 0 {
        assert(entries.push(e)[0] == e);
        assert(entries.push(e).drop_first() =~= Seq::<(u128, Seq<char>)>::empty());
        assert(spec_encode(entries.push(e)) == encode_entry(entries.push(e)[0].0, entries.push(e)[0].1)
            + spec_encode(entries.push(e).drop_first()));
        assert(spec_encode(entries.push(e)) =~= spec_encode(entries) + encode_entry(e.0, e.1));
    } else {
        assert(entries.push(e)[0] == entries[0]);
        assert(entries.push(e).drop_first() =~= entries.drop_first().push(e));
        lemma_spec_encode_push(entries.drop_first(), e);
        assert(spec_encode(entries.push(e)) == encode_entry(entries[0].0, entries[0].1)
            + spec_encode(entries.drop_first().push(e)));
        assert(spec_encode(entries.push(e)) =~= spec_encode(entries) + encode_entry(e.0, e.1));
    }
}

pub proof fn lemma_encode_entry_len(id: u128, name: Seq<char>)
    ensures
        encode_entry(id, name).len() == 40 + 8 * name.len(),
{
    lemma_hex_digits_len(id as nat, 32);
    lemma_hex_digits_len(name.len(), 8);
    lemma_encode_name_len(name);
}

/// The round trip: decoding an encoded store yields exactly its entries,
/// provided each username length fits the 8-digit length field.
pub proof fn lemma_decode_encode(entries: Seq<(u128, Seq<char>)>)
    requires
        forall|i: int| 0 <= i < entries.len() ==> #[trigger] entries[i].1.len() < 0x1_0000_0000,
    ensures
        spec_decode(spec_encode(entries)) == Some(entries),
    decreases entries.len(),
{
    lemma_pow16_vals();
    if entries.len() == 0 {
        assert(spec_decode(spec_encode(entries)) =~= Some(entries));
    } else {
        let id = entries[0].0;
        let name = entries[0].1;
        let rest = entries.drop_first();
        let s = spec_encode(entries);
        lemma_encode_entry_len(id, name);
        lemma_hex_digits_len(id as nat, 32);
        lemma_hex_digits_len(name.len(), 8);
        lemma_encode_name_len(name);
        assert(s.len() == 40 + 8 * name.len() + spec_encode(rest).len());
        assert(s.subrange(0, 32) =~= hex_digits(id as nat, 32));
        lemma_parse_hex_digits(id as nat, 32);
        assert(s.subrange(32, 40) =~= hex_digits(name.len(), 8));
        lemma_parse_hex_digits(name.len(), 8);
        assert(s.subrange(40, 40 + 8 * name.len() as int) =~= encode_name(name));
        lemma_decode_encode_name(name);
        assert(s.subrange(40 + 8 * name.len() as int, s.len() as int) =~= spec_encode(rest));
        assert(forall|i: int| 0 <= i < rest.len() ==> #[trigger] rest[i].1.len() < 0x1_0000_0000);
        lemma_decode_encode(rest);
        assert((id as nat) as u128 == id);
        assert(seq![(id, name)] + rest =~= entries);
    }
}

proof fn lemma_pow16_pos(w: nat)
    ensures
        pow16(w) >= 1,
    decreases w,
{
    if w > 0 {
        lemma_pow16_pos((w - 1) as nat);
    }
}

proof fn lemma_pow16_increases(a: nat, b: nat)
    requires
        a <= b,
    ensures
        pow16(a) <= pow16(b),
    decreases b,
{
    if a < b {
        lemma_pow16_increases(a, (b - 1) as nat);
        lemma_pow16_pos((b - 1) as nat);
    }
}

/// One invalid digit anywhere makes the whole run unparseable.
proof fn lemma_parse_hex_invalid(s: Seq<char>, i: int)
    requires
        0 <= i < s.len(),
        hex_val(s[i]) is None,
    ensures
        parse_hex(s) is None,
    decreases s.len(),
{
    if i < s.len() - 1 {
        assert(s.drop_last()[i] == s[i]);
        lemma_parse_hex_invalid(s.drop_last(), i);
    }
}

fn hex_char_str(d: u128) -> (r: &'static str)
    requires
        d < 16,
    ensures
        r@ == seq![hex_char(d as nat)],
{
    let r: &'static str = match d {
        0 => "0",
        1 => "1",
        2 => "2",
        3 => "3",
        4 => "4",
        5 => "5",
        6 => "6",
        7 => "7",
        8 => "8",
        9 => "9",
        10 => "a",
        11 => "b",
        12 => "c",
        13 => "d",
        14 => "e",
        _ => "f",
    };
    proof {
        reveal_strlit("0");
        reveal_strlit("1");
        reveal_strlit("2");
        reveal_strlit("3");
        reveal_strlit("4");
        reveal_strlit("5");
        reveal_strlit("6");
        reveal_strlit("7");
        reveal_strlit("8");
        reveal_strlit("9");
        reveal_strlit("a");
        reveal_strlit("b");
        reveal_strlit("c");
        reveal_strlit("d");
        reveal_strlit("e");
        reveal_strlit("f");
        assert(r@ =~= seq![hex_char(d as nat)]);
    }
    r
}

/// Append the `w` least significant hex digits of `v`, most significant first.
pub fn append_hex(out: &mut String, v: u128, w: u32)
    ensures
        final(out)@ == old(out)@ + hex_digits(v as nat, w as nat),
    decreases w,
{
    if w == 0 {
        proof {
            assert(final(out)@ =~= old(out)@ + hex_digits(v as nat, 0));
        }
    } else {
        append_hex(out, v / 16, w - 1);
        out.append(hex_char_str(v % 16));
        proof {
            assert((v / 16) as nat == (v as nat) / 16);
            assert((v % 16) as nat == (v as nat) % 16);
            assert(out@ =~= old(out)@ + hex_digits(v as nat, w as nat));
        }
    }
}

fn char_hex_val(c: char) -> (r: Option<u128>)
    ensures
        (r is Some) == (hex_val(c) is Some),
        r matches Some(d) ==> hex_val(c) == Some(d as nat) && d < 16,
{
    if c == '0' { Some(0) }
    else if c == '1' { Some(1) }
    else if c == '2' { Some(2) }
    else if c == '3' { Some(3) }
    else if c == '4' { Some(4) }
    else if c == '5' { Some(5) }
    else if c == '6' { Some(6) }
    else if c == '7' { Some(7) }
    else if c == '8' { Some(8) }
    else if c == '9' { Some(9) }
    else if c == 'a' { Some(10) }
    else if c == 'b' { Some(11) }
    else if c == 'c' { Some(12) }
    else if c == 'd' { Some(13) }
    else if c == 'e' { Some(14) }
    else if c == 'f' { Some(15) }
    else { None }
}

/// Parse the hex digits at positions `from..to` of `s`.
pub fn parse_hex_range(s: &str, from: usize, to: usize) -> (r: Option<u128>)
    requires
        from <= to <= s@.len(),
        to - from <= 32,
    ensures
        (r is Some) == (parse_hex(s@.subrange(from as int, to as int)) is Some),
        r matches Some(v) ==> parse_hex(s@.subrange(from as int, to as int)) == Some(v as nat),
{
    let mut k: usize = from;
    let mut acc: u128 = 0;
    while k < to
        invariant
            from <= k <= to,
            to <= s@.len(),
            to - from <= 32,
            parse_hex(s@.subrange(from as int, k as int)) == Some(acc as nat),
        decreases to - k,
    {
        let c = s.get_char(k);
        let d: u128 = match char_hex_val(c) {
            Some(d) => d,
            None => {
                proof {
                    let whole = s@.subrange(from as int, to as int);
                    assert(whole[k - from] == s@[k as int]);
                    lemma_parse_hex_invalid(whole, k - from);
                }
                return None;
            },
        };
        proof {
            let pre = s@.subrange(from as int, k as int);
            lemma_parse_hex_bound(pre);
            lemma_pow16_increases((k - from) as nat, 31);
            lemma_pow16_vals();
            assert(pow16(31) * 16 == pow16(32)) by {
                reveal_with_fuel(pow16, 33);
            }
            assert(acc * 16 + d < pow16(32)) by (nonlinear_arith)
                requires
                    (acc as nat) < pow16(31),
                    d < 16,
                    pow16(31) * 16 == pow16(32);
            let post = s@.subrange(from as int, (k + 1) as int);
            assert(post.drop_last() =~= pre);
            assert(post.last() == s@[k as int]);
        }
        acc = acc * 16 + d;
        k = k + 1;
    }
    Some(acc)
}

} // verus!
