//! A byte form for the engine state.
//!
//! The serialized form is a structured record holding the global map, the
//! bitmap table, the override map, the slot table, the highest-allocated
//! slot counter, and the metadata value — enough to reconstruct the whole
//! engine state, and proved to round-trip exactly.
//!
//! The layout is a stream of 64-bit little-endian words: the metadata and
//! the slot counter first, then each of the four tables as a count
//! followed by its entries; a string is a count followed by one word per
//! character (its Unicode scalar value), a bitmap is a count followed by
//! one word (zero or one) per bit.

use vstd::prelude::*;

use crate::srmap::{b_view, g_view, id_view, u_view, SRMap};

verus! {

/// The structured record that the byte form carries: the four tables as
/// entry lists, the highest allocated slot, and the metadata.
#[verifier::ext_equal]
pub struct StateRecord {
    /// global map entries: key -> shared value-set
    pub gl: Seq<(Seq<char>, Seq<Seq<char>>)>,
    /// bitmap table entries: key -> visibility bits
    pub bl: Seq<(Seq<char>, Seq<bool>)>,
    /// override map entries: (user id, key) -> value-set
    pub ul: Seq<((int, Seq<char>), Seq<Seq<char>>)>,
    /// slot table entries: user id -> slot
    pub il: Seq<(int, int)>,
    /// highest slot handed out so far
    pub largest: int,
    /// metadata value
    pub meta: u64,
}

/// The record an engine state denotes.
pub open spec fn record_of(m: SRMap<u64>) -> StateRecord {
    StateRecord {
        gl: g_view(m.g_map@),
        bl: b_view(m.b_map@),
        ul: u_view(m.u_map@),
        il: id_view(m.id_store@),
        largest: m.largest as int,
        meta: m.meta,
    }
}

/// A word holds a Unicode scalar value.
pub open spec fn valid_scalar_word(w: u64) -> bool {
    w < 0xD800 || (0xE000 <= w && w < 0x110000)
}

// ---------------------------------------------------------------- encoding

/// One word per character: its Unicode scalar value.
pub open spec fn enc_chars(s: Seq<char>) -> Seq<u64>
    decreases s.len(),
{
    if s.len() == 0 {
        Seq::empty()
    } else {
        seq![(s[0] as u32) as u64] + enc_chars(s.drop_first())
    }
}

/// A string: its length, then its characters.
pub open spec fn enc_string(s: Seq<char>) -> Seq<u64> {
    seq![s.len() as u64] + enc_chars(s)
}

/// The strings of a value-set, one after the other.
pub open spec fn enc_strings(vs: Seq<Seq<char>>) -> Seq<u64>
    decreases vs.len(),
{
    if vs.len() == 0 {
        Seq::empty()
    } else {
        enc_string(vs[0]) + enc_strings(vs.drop_first())
    }
}

/// A value-set: its length, then its strings.
pub open spec fn enc_string_list(vs: Seq<Seq<char>>) -> Seq<u64> {
    seq![vs.len() as u64] + enc_strings(vs)
}

/// One word per bit: one for a set bit, zero for a cleared one.
pub open spec fn enc_bools(bs: Seq<bool>) -> Seq<u64>
    decreases bs.len(),
{
    if bs.len() == 0 {
        Seq::empty()
    } else {
        seq![if bs[0] { 1u64 } else { 0u64 }] + enc_bools(bs.drop_first())
    }
}

/// A bitmap: its length, then its bits.
pub open spec fn enc_bool_list(bs: Seq<bool>) -> Seq<u64> {
    seq![bs.len() as u64] + enc_bools(bs)
}

/// The global map entries, one after the other: key, then value-set.
pub open spec fn enc_g_items(l: Seq<(Seq<char>, Seq<Seq<char>>)>) -> Seq<u64>
    decreases l.len(),
{
    if l.len() == 0 {
        Seq::empty()
    } else {
        enc_string(l[0].0) + enc_string_list(l[0].1) + enc_g_items(l.drop_first())
    }
}

/// The bitmap table entries, one after the other: key, then bitmap.
pub open spec fn enc_b_items(l: Seq<(Seq<char>, Seq<bool>)>) -> Seq<u64>
    decreases l.len(),
{
    if l.len() == 0 {
        Seq::empty()
    } else {
        enc_string(l[0].0) + enc_bool_list(l[0].1) + enc_b_items(l.drop_first())
    }
}

/// The override map entries, one after the other: user id, key, value-set.
pub open spec fn enc_u_items(l: Seq<((int, Seq<char>), Seq<Seq<char>>)>) -> Seq<u64>
    decreases l.len(),
{
    if l.len() == 0 {
        Seq::empty()
    } else {
        seq![l[0].0.0 as u64] + enc_string(l[0].0.1) + enc_string_list(l[0].1)
            + enc_u_items(l.drop_first())
    }
}

/// The slot table entries, one after the other: user id, then slot.
pub open spec fn enc_id_items(l: Seq<(int, int)>) -> Seq<u64>
    decreases l.len(),
{
    if l.len() == 0 {
        Seq::empty()
    } else {
        seq![l[0].0 as u64, l[0].1 as u64] + enc_id_items(l.drop_first())
    }
}

/// The whole record as one word stream.
pub open spec fn enc_record(r: StateRecord) -> Seq<u64> {
    seq![r.meta, r.largest as u64]
        + seq![r.gl.len() as u64] + enc_g_items(r.gl)
        + seq![r.bl.len() as u64] + enc_b_items(r.bl)
        + seq![r.ul.len() as u64] + enc_u_items(r.ul)
        + seq![r.il.len() as u64] + enc_id_items(r.il)
}

// ---------------------------------------------------------------- decoding

/// The first word of the stream, and the remainder.
pub open spec fn dec_word(w: Seq<u64>) -> Option<(u64, Seq<u64>)> {
    if w.len() == 0 {
        None
    } else {
        Some((w[0], w.drop_first()))
    }
}

/// `n` characters off the front of the stream.
pub open spec fn dec_chars(n: int, w: Seq<u64>) -> Option<(Seq<char>, Seq<u64>)>
    decreases n,
{
    if n <= 0 {
        Some((Seq::empty(), w))
    } else {
        match dec_word(w) {
            None => None,
            Some((x, rest)) => if valid_scalar_word(x) {
                match dec_chars(n - 1, rest) {
                    None => None,
                    Some((cs, rest2)) => Some((seq![(x as u32) as char] + cs, rest2)),
                }
            } else {
                None
            },
        }
    }
}

/// A length-prefixed string off the front of the stream.
pub open spec fn dec_string(w: Seq<u64>) -> Option<(Seq<char>, Seq<u64>)> {
    match dec_word(w) {
        None => None,
        Some((n, rest)) => dec_chars(n as int, rest),
    }
}

/// `n` strings off the front of the stream.
pub open spec fn dec_strings(n: int, w: Seq<u64>) -> Option<(Seq<Seq<char>>, Seq<u64>)>
    decreases n,
{
    if n <= 0 {
        Some((Seq::empty(), w))
    } else {
        match dec_string(w) {
            None => None,
            Some((s, rest)) => match dec_strings(n - 1, rest) {
                None => None,
                Some((ss, rest2)) => Some((seq![s] + ss, rest2)),
            },
        }
    }
}

/// A length-prefixed value-set off the front of the stream.
pub open spec fn dec_string_list(w: Seq<u64>) -> Option<(Seq<Seq<char>>, Seq<u64>)> {
    match dec_word(w) {
        None => None,
        Some((n, rest)) => dec_strings(n as int, rest),
    }
}

/// `n` bits off the front of the stream; only zero and one stand for bits.
pub open spec fn dec_bools(n: int, w: Seq<u64>) -> Option<(Seq<bool>, Seq<u64>)>
    decreases n,
{
    if n <= 0 {
        Some((Seq::empty(), w))
    } else {
        match dec_word(w) {
            None => None,
            Some((x, rest)) => if x == 0 || x == 1 {
                match dec_bools(n - 1, rest) {
                    None => None,
                    Some((bs, rest2)) => Some((seq![x == 1] + bs, rest2)),
                }
            } else {
                None
            },
        }
    }
}

/// A length-prefixed bitmap off the front of the stream.
pub open spec fn dec_bool_list(w: Seq<u64>) -> Option<(Seq<bool>, Seq<u64>)> {
    match dec_word(w) {
        None => None,
        Some((n, rest)) => dec_bools(n as int, rest),
    }
}

/// `n` global map entries off the front of the stream.
pub open spec fn dec_g_items(n: int, w: Seq<u64>) -> Option<(Seq<(Seq<char>, Seq<Seq<char>>)>, Seq<u64>)>
    decreases n,
{
    if n <= 0 {
        Some((Seq::empty(), w))
    } else {
        match dec_string(w) {
            None => None,
            Some((k, r1)) => match dec_string_list(r1) {
                None => None,
                Some((vs, r2)) => match dec_g_items(n - 1, r2) {
                    None => None,
                    Some((es, r3)) => Some((seq![(k, vs)] + es, r3)),
                },
            },
        }
    }
}

/// `n` bitmap table entries off the front of the stream.
pub open spec fn dec_b_items(n: int, w: Seq<u64>) -> Option<(Seq<(Seq<char>, Seq<bool>)>, Seq<u64>)>
    decreases n,
{
    if n <= 0 {
        Some((Seq::empty(), w))
    } else {
        match dec_string(w) {
            None => None,
            Some((k, r1)) => match dec_bool_list(r1) {
                None => None,
                Some((bs, r2)) => match dec_b_items(n - 1, r2) {
                    None => None,
                    Some((es, r3)) => Some((seq![(k, bs)] + es, r3)),
                },
            },
        }
    }
}

/// `n` override map entries off the front of the stream; a user id must
/// fit the machine's word size.
pub open spec fn dec_u_items(n: int, w: Seq<u64>) -> Option<(Seq<((int, Seq<char>), Seq<Seq<char>>)>, Seq<u64>)>
    decreases n,
{
    if n <= 0 {
        Some((Seq::empty(), w))
    } else {
        match dec_word(w) {
            None => None,
            Some((uid, r0)) => if uid <= usize::MAX as u64 {
                match dec_string(r0) {
                    None => None,
                    Some((k, r1)) => match dec_string_list(r1) {
                        None => None,
                        Some((vs, r2)) => match dec_u_items(n - 1, r2) {
                            None => None,
                            Some((es, r3)) => Some((seq![((uid as int, k), vs)] + es, r3)),
                        },
                    },
                }
            } else {
                None
            },
        }
    }
}

/// `n` slot table entries off the front of the stream; ids and slots must
/// fit the machine's word size.
pub open spec fn dec_id_items(n: int, w: Seq<u64>) -> Option<(Seq<(int, int)>, Seq<u64>)>
    decreases n,
{
    if n <= 0 {
        Some((Seq::empty(), w))
    } else {
        match dec_word(w) {
            None => None,
            Some((uid, r0)) => if uid <= usize::MAX as u64 {
                match dec_word(r0) {
                    None => None,
                    Some((slot, r1)) => if slot <= usize::MAX as u64 {
                        match dec_id_items(n - 1, r1) {
                            None => None,
                            Some((es, r2)) => Some((seq![(uid as int, slot as int)] + es, r2)),
                        }
                    } else {
                        None
                    },
                }
            } else {
                None
            },
        }
    }
}

/// The whole record off the front of the stream.
pub open spec fn dec_record(w: Seq<u64>) -> Option<(StateRecord, Seq<u64>)> {
    match dec_word(w) {
        None => None,
        Some((meta, r0)) => match dec_word(r0) {
            None => None,
            Some((largest, r1)) => if largest <= usize::MAX as u64 {
                match dec_word(r1) {
                    None => None,
                    Some((ng, r2)) => match dec_g_items(ng as int, r2) {
                        None => None,
                        Some((gl, r3)) => match dec_word(r3) {
                            None => None,
                            Some((nb, r4)) => match dec_b_items(nb as int, r4) {
                                None => None,
                                Some((bl, r5)) => match dec_word(r5) {
                                    None => None,
                                    Some((nu, r6)) => match dec_u_items(nu as int, r6) {
                                        None => None,
                                        Some((ul, r7)) => match dec_word(r7) {
                                            None => None,
                                            Some((ni, r8)) => match dec_id_items(ni as int, r8) {
                                                None => None,
                                                Some((il, r9)) => Some((
                                                    StateRecord {
                                                        gl,
                                                        bl,
                                                        ul,
                                                        il,
                                                        largest: largest as int,
                                                        meta,
                                                    },
                                                    r9,
                                                )),
                                            },
                                        },
                                    },
                                },
                            },
                        },
                    },
                }
            } else {
                None
            },
        },
    }
}

// ------------------------------------------------------------- byte layer

/// A word as eight little-endian bytes.
pub open spec fn word_bytes(x: u64) -> Seq<u8> {
    seq![
        (x & 0xff) as u8,
        ((x >> 8) & 0xff) as u8,
        ((x >> 16) & 0xff) as u8,
        ((x >> 24) & 0xff) as u8,
        ((x >> 32) & 0xff) as u8,
        ((x >> 40) & 0xff) as u8,
        ((x >> 48) & 0xff) as u8,
        ((x >> 56) & 0xff) as u8,
    ]
}

/// The word eight little-endian bytes hold.
pub open spec fn bytes_word(b: Seq<u8>) -> u64 {
    (b[0] as u64) | ((b[1] as u64) << 8) | ((b[2] as u64) << 16) | ((b[3] as u64) << 24)
        | ((b[4] as u64) << 32) | ((b[5] as u64) << 40) | ((b[6] as u64) << 48)
        | ((b[7] as u64) << 56)
}

/// A word stream as bytes.
pub open spec fn words_bytes(ws: Seq<u64>) -> Seq<u8>
    decreases ws.len(),
{
    if ws.len() == 0 {
        Seq::empty()
    } else {
        word_bytes(ws[0]) + words_bytes(ws.drop_first())
    }
}

/// The word stream eight-byte groups hold; anything but a whole number of
/// groups is refused.
pub open spec fn bytes_words(b: Seq<u8>) -> Option<Seq<u64>>
    decreases b.len(),
{
    if b.len() == 0 {
        Some(Seq::empty())
    } else if b.len() < 8 {
        None
    } else {
        match bytes_words(b.skip(8)) {
            None => None,
            Some(ws) => Some(seq![bytes_word(b.take(8))] + ws),
        }
    }
}

/// What decoding the byte form of an engine state yields: the record, if
/// the bytes are a whole encoding with nothing trailing.
pub open spec fn dec_bytes(b: Seq<u8>) -> Option<StateRecord> {
    match bytes_words(b) {
        None => None,
        Some(ws) => match dec_record(ws) {
            None => None,
            Some((r, rest)) => if rest.len() == 0 {
                Some(r)
            } else {
                None
            },
        },
    }
}

// ----------------------------------------------------------- size bounds

/// The record's counts fit the encoding's words: every list and string is
/// short enough for its length to be written as one word, and ids and
/// slots fit the machine's word size. Every record taken from a real
/// engine state satisfies this.
pub open spec fn record_valid(r: StateRecord) -> bool {
    &&& 0 <= r.largest <= usize::MAX
    &&& r.gl.len() <= u64::MAX
    &&& r.bl.len() <= u64::MAX
    &&& r.ul.len() <= u64::MAX
    &&& r.il.len() <= u64::MAX
    &&& forall|i: int| 0 <= i < r.gl.len()
        ==> str_short((#[trigger] r.gl[i]).0) && strs_short(r.gl[i].1)
    &&& forall|i: int| 0 <= i < r.bl.len()
        ==> str_short((#[trigger] r.bl[i]).0) && r.bl[i].1.len() <= u64::MAX
    &&& forall|i: int| 0 <= i < r.ul.len()
        ==> 0 <= (#[trigger] r.ul[i]).0.0 <= usize::MAX && str_short(r.ul[i].0.1)
            && strs_short(r.ul[i].1)
    &&& forall|i: int| 0 <= i < r.il.len()
        ==> 0 <= (#[trigger] r.il[i]).0 <= usize::MAX && 0 <= r.il[i].1 <= usize::MAX
}

/// A string short enough for its length to be one word.
pub open spec fn str_short(s: Seq<char>) -> bool {
    s.len() <= u64::MAX
}

/// A value-set short enough for all its lengths to be words.
pub open spec fn strs_short(vs: Seq<Seq<char>>) -> bool {
    vs.len() <= u64::MAX && forall|i: int| 0 <= i < vs.len() ==> str_short(#[trigger] vs[i])
}

// ------------------------------------------------------------ round trip

proof fn lemma_chars_rt(s: Seq<char>, rest: Seq<u64>)
    requires
        s.len() <= u64::MAX,
    ensures
        dec_chars(s.len() as int, enc_chars(s) + rest) == Some((s, rest)),
    decreases s.len(),
{
    if s.len() == 0 {
        assert(enc_chars(s) + rest =~= rest);
        assert(s =~= Seq::<char>::empty());
    } else {
        let w0 = (s[0] as u32) as u64;
        vstd::utf8::char_is_scalar(s[0]);
        assert(valid_scalar_word(w0));
        let tail = enc_chars(s.drop_first()) + rest;
        assert(enc_chars(s) + rest =~= seq![w0] + tail);
        assert((seq![w0] + tail)[0] == w0);
        assert((seq![w0] + tail).drop_first() =~= tail);
        lemma_chars_rt(s.drop_first(), rest);
        vstd::utf8::char_u32_cast(s[0], s[0] as u32);
        assert(((w0 as u32) as char) == s[0]);
        assert(seq![s[0]] + s.drop_first() =~= s);
    }
}

proof fn lemma_string_rt(s: Seq<char>, rest: Seq<u64>)
    requires
        str_short(s),
    ensures
        dec_string(enc_string(s) + rest) == Some((s, rest)),
{
    let w = enc_string(s) + rest;
    assert(w[0] == s.len() as u64);
    assert(w.drop_first() =~= enc_chars(s) + rest);
    lemma_chars_rt(s, rest);
}

proof fn lemma_strings_rt(vs: Seq<Seq<char>>, rest: Seq<u64>)
    requires
        strs_short(vs),
    ensures
        dec_strings(vs.len() as int, enc_strings(vs) + rest) == Some((vs, rest)),
    decreases vs.len(),
{
    if vs.len() == 0 {
        assert(enc_strings(vs) + rest =~= rest);
        assert(vs =~= Seq::<Seq<char>>::empty());
    } else {
        let tail = enc_strings(vs.drop_first()) + rest;
        assert(enc_strings(vs) + rest =~= enc_string(vs[0]) + tail);
        lemma_string_rt(vs[0], tail);
        assert(strs_short(vs.drop_first())) by {
            assert(forall|i: int| 0 <= i < vs.drop_first().len()
                ==> #[trigger] vs.drop_first()[i] == vs[i + 1]);
        }
        lemma_strings_rt(vs.drop_first(), rest);
        assert(seq![vs[0]] + vs.drop_first() =~= vs);
    }
}

proof fn lemma_string_list_rt(vs: Seq<Seq<char>>, rest: Seq<u64>)
    requires
        strs_short(vs),
    ensures
        dec_string_list(enc_string_list(vs) + rest) == Some((vs, rest)),
{
    let w = enc_string_list(vs) + rest;
    assert(w[0] == vs.len() as u64);
    assert(w.drop_first() =~= enc_strings(vs) + rest);
    lemma_strings_rt(vs, rest);
}

proof fn lemma_bools_rt(bs: Seq<bool>, rest: Seq<u64>)
    requires
        bs.len() <= u64::MAX,
    ensures
        dec_bools(bs.len() as int, enc_bools(bs) + rest) == Some((bs, rest)),
    decreases bs.len(),
{
    if bs.len() == 0 {
        assert(enc_bools(bs) + rest =~= rest);
        assert(bs =~= Seq::<bool>::empty());
    } else {
        let w0: u64 = if bs[0] { 1u64 } else { 0u64 };
        let tail = enc_bools(bs.drop_first()) + rest;
        assert(enc_bools(bs) + rest =~= seq![w0] + tail);
        assert((seq![w0] + tail)[0] == w0);
        assert((seq![w0] + tail).drop_first() =~= tail);
        lemma_bools_rt(bs.drop_first(), rest);
        assert(seq![bs[0]] + bs.drop_first() =~= bs);
    }
}

proof fn lemma_bool_list_rt(bs: Seq<bool>, rest: Seq<u64>)
    requires
        bs.len() <= u64::MAX,
    ensures
        dec_bool_list(enc_bool_list(bs) + rest) == Some((bs, rest)),
{
    let w = enc_bool_list(bs) + rest;
    assert(w[0] == bs.len() as u64);
    assert(w.drop_first() =~= enc_bools(bs) + rest);
    lemma_bools_rt(bs, rest);
}

proof fn lemma_g_items_rt(l: Seq<(Seq<char>, Seq<Seq<char>>)>, rest: Seq<u64>)
    requires
        l.len() <= u64::MAX,
        forall|i: int| 0 <= i < l.len() ==> str_short((#[trigger] l[i]).0) && strs_short(l[i].1),
    ensures
        dec_g_items(l.len() as int, enc_g_items(l) + rest) == Some((l, rest)),
    decreases l.len(),
{
    if l.len() == 0 {
        assert(enc_g_items(l) + rest =~= rest);
        assert(l =~= Seq::<(Seq<char>, Seq<Seq<char>>)>::empty());
    } else {
        let t1 = enc_string_list(l[0].1) + (enc_g_items(l.drop_first()) + rest);
        assert(enc_g_items(l) + rest =~= enc_string(l[0].0) + t1);
        lemma_string_rt(l[0].0, t1);
        lemma_string_list_rt(l[0].1, enc_g_items(l.drop_first()) + rest);
        assert(forall|i: int| 0 <= i < l.drop_first().len()
            ==> #[trigger] l.drop_first()[i] == l[i + 1]);
        lemma_g_items_rt(l.drop_first(), rest);
        assert(seq![l[0]] + l.drop_first() =~= l);
    }
}

proof fn lemma_b_items_rt(l: Seq<(Seq<char>, Seq<bool>)>, rest: Seq<u64>)
    requires
        l.len() <= u64::MAX,
        forall|i: int| 0 <= i < l.len()
            ==> str_short((#[trigger] l[i]).0) && l[i].1.len() <= u64::MAX,
    ensures
        dec_b_items(l.len() as int, enc_b_items(l) + rest) == Some((l, rest)),
    decreases l.len(),
{
    if l.len() == 0 {
        assert(enc_b_items(l) + rest =~= rest);
        assert(l =~= Seq::<(Seq<char>, Seq<bool>)>::empty());
    } else {
        let t1 = enc_bool_list(l[0].1) + (enc_b_items(l.drop_first()) + rest);
        assert(enc_b_items(l) + rest =~= enc_string(l[0].0) + t1);
        lemma_string_rt(l[0].0, t1);
        lemma_bool_list_rt(l[0].1, enc_b_items(l.drop_first()) + rest);
        assert(forall|i: int| 0 <= i < l.drop_first().len()
            ==> #[trigger] l.drop_first()[i] == l[i + 1]);
        lemma_b_items_rt(l.drop_first(), rest);
        assert(seq![l[0]] + l.drop_first() =~= l);
    }
}

proof fn lemma_u_items_rt(l: Seq<((int, Seq<char>), Seq<Seq<char>>)>, rest: Seq<u64>)
    requires
        l.len() <= u64::MAX,
        forall|i: int| 0 <= i < l.len()
            ==> 0 <= (#[trigger] l[i]).0.0 <= usize::MAX && str_short(l[i].0.1)
                && strs_short(l[i].1),
    ensures
        dec_u_items(l.len() as int, enc_u_items(l) + rest) == Some((l, rest)),
    decreases l.len(),
{
    if l.len() == 0 {
        assert(enc_u_items(l) + rest =~= rest);
        assert(l =~= Seq::<((int, Seq<char>), Seq<Seq<char>>)>::empty());
    } else {
        let uidw = l[0].0.0 as u64;
        let t0 = enc_string(l[0].0.1) + (enc_string_list(l[0].1)
            + (enc_u_items(l.drop_first()) + rest));
        assert(enc_u_items(l) + rest =~= seq![uidw] + t0);
        assert((seq![uidw] + t0)[0] == uidw);
        assert((seq![uidw] + t0).drop_first() =~= t0);
        assert(uidw as int == l[0].0.0);
        lemma_string_rt(l[0].0.1, enc_string_list(l[0].1) + (enc_u_items(l.drop_first()) + rest));
        lemma_string_list_rt(l[0].1, enc_u_items(l.drop_first()) + rest);
        assert(forall|i: int| 0 <= i < l.drop_first().len()
            ==> #[trigger] l.drop_first()[i] == l[i + 1]);
        lemma_u_items_rt(l.drop_first(), rest);
        assert(seq![l[0]] + l.drop_first() =~= l);
    }
}

proof fn lemma_id_items_rt(l: Seq<(int, int)>, rest: Seq<u64>)
    requires
        l.len() <= u64::MAX,
        forall|i: int| 0 <= i < l.len()
            ==> 0 <= (#[trigger] l[i]).0 <= usize::MAX && 0 <= l[i].1 <= usize::MAX,
    ensures
        dec_id_items(l.len() as int, enc_id_items(l) + rest) == Some((l, rest)),
    decreases l.len(),
{
    if l.len() == 0 {
        assert(enc_id_items(l) + rest =~= rest);
        assert(l =~= Seq::<(int, int)>::empty());
    } else {
        let t0 = enc_id_items(l.drop_first()) + rest;
        let two = seq![l[0].0 as u64, l[0].1 as u64];
        assert(enc_id_items(l) + rest =~= two + t0);
        assert((two + t0)[0] == l[0].0 as u64);
        assert((two + t0).drop_first() =~= seq![l[0].1 as u64] + t0);
        assert((seq![l[0].1 as u64] + t0)[0] == l[0].1 as u64);
        assert((seq![l[0].1 as u64] + t0).drop_first() =~= t0);
        assert(forall|i: int| 0 <= i < l.drop_first().len()
            ==> #[trigger] l.drop_first()[i] == l[i + 1]);
        lemma_id_items_rt(l.drop_first(), rest);
        assert(seq![l[0]] + l.drop_first() =~= l);
        assert((l[0].0 as u64) as int == l[0].0);
        assert((l[0].1 as u64) as int == l[0].1);
    }
}

/// Decoding an encoded record gives the record back, with nothing left
/// over.
pub proof fn lemma_record_rt(r: StateRecord)
    requires
        record_valid(r),
    ensures
        dec_record(enc_record(r)) == Some((r, Seq::<u64>::empty())),
{
    let empty = Seq::<u64>::empty();
    let w4 = seq![r.il.len() as u64] + enc_id_items(r.il);
    let w3 = seq![r.ul.len() as u64] + enc_u_items(r.ul) + w4;
    let w2 = seq![r.bl.len() as u64] + enc_b_items(r.bl) + w3;
    let w1 = seq![r.gl.len() as u64] + enc_g_items(r.gl) + w2;
    let w = enc_record(r);
    assert(w =~= seq![r.meta, r.largest as u64] + w1);
    assert(w[0] == r.meta);
    assert(w.drop_first() =~= seq![r.largest as u64] + w1);
    assert(w.drop_first().drop_first() =~= w1);
    assert((r.largest as u64) as int == r.largest);
    assert(w1[0] == r.gl.len() as u64);
    assert(w1.drop_first() =~= enc_g_items(r.gl) + w2);
    lemma_g_items_rt(r.gl, w2);
    assert(w2[0] == r.bl.len() as u64);
    assert(w2.drop_first() =~= enc_b_items(r.bl) + w3);
    lemma_b_items_rt(r.bl, w3);
    assert(w3[0] == r.ul.len() as u64);
    assert(w3.drop_first() =~= enc_u_items(r.ul) + w4);
    lemma_u_items_rt(r.ul, w4);
    assert(w4[0] == r.il.len() as u64);
    assert(w4.drop_first() =~= enc_id_items(r.il) + empty);
    lemma_id_items_rt(r.il, empty);
    assert(dec_record(w) =~= Some((StateRecord { gl: r.gl, bl: r.bl, ul: r.ul, il: r.il, largest: r.largest, meta: r.meta }, empty)));
    assert(StateRecord { gl: r.gl, bl: r.bl, ul: r.ul, il: r.il, largest: r.largest, meta: r.meta } =~= r);
}

proof fn lemma_word_rt(x: u64)
    ensures
        bytes_word(word_bytes(x)) == x,
{
    let b = word_bytes(x);
    assert(((x & 0xff) as u8 as u64) | (((x >> 8) & 0xff) as u8 as u64) << 8
        | (((x >> 16) & 0xff) as u8 as u64) << 16 | (((x >> 24) & 0xff) as u8 as u64) << 24
        | (((x >> 32) & 0xff) as u8 as u64) << 32 | (((x >> 40) & 0xff) as u8 as u64) << 40
        | (((x >> 48) & 0xff) as u8 as u64) << 48 | (((x >> 56) & 0xff) as u8 as u64) << 56
        == x) by (bit_vector);
}

proof fn lemma_words_rt(ws: Seq<u64>)
    ensures
        bytes_words(words_bytes(ws)) == Some(ws),
    decreases ws.len(),
{
    if ws.len() == 0 {
        assert(words_bytes(ws).len() == 0);
        assert(Seq::<u64>::empty() =~= ws);
    } else {
        let b = words_bytes(ws);
        assert(b =~= word_bytes(ws[0]) + words_bytes(ws.drop_first()));
        assert(b.len() >= 8);
        assert(b.take(8) =~= word_bytes(ws[0]));
        assert(b.skip(8) =~= words_bytes(ws.drop_first()));
        lemma_word_rt(ws[0]);
        lemma_words_rt(ws.drop_first());
        assert(seq![ws[0]] + ws.drop_first() =~= ws);
    }
}

/// The round trip: the byte form of any engine state decodes back to
/// exactly the record of that state — same global map, bitmap table,
/// override map, slot table, slot counter and metadata.
pub proof fn lemma_bytes_roundtrip(r: StateRecord)
    requires
        record_valid(r),
    ensures
        dec_bytes(words_bytes(enc_record(r))) == Some(r),
{
    lemma_words_rt(enc_record(r));
    lemma_record_rt(r);
}

// ------------------------------------------------------- trusted wrappers

/// Relies on `str::chars`: the characters of the string, in order.
#[verifier::external_body]
fn chars_of(s: &String) -> (r: Vec<char>)
    ensures
        r@ == s@,
{
    s.chars().collect()
}

/// Relies on `String::push`: appends the character to the string.
#[verifier::external_body]
fn push_char(s: &mut String, c: char)
    ensures
        final(s)@ == old(s)@.push(c),
{
    s.push(c)
}

/// Relies on `char::from_u32`: `Some` exactly when the value is a Unicode
/// scalar, and the returned character has that scalar value.
#[verifier::external_body]
fn char_from_u32(x: u32) -> (r: Option<char>)
    ensures
        r is Some <==> (x < 0xD800 || (0xE000 <= x && x < 0x110000)),
        r matches Some(c) ==> c as u32 == x,
{
    char::from_u32(x)
}

// ------------------------------------------------------------ exec encode

fn we_chars(cs: &Vec<char>, i: usize) -> (out: Vec<u64>)
    requires
        i <= cs@.len(),
    ensures
        out@ == enc_chars(cs@.skip(i as int)),
    decreases cs@.len() - i,
{
    if i == cs.len() {
        let out: Vec<u64> = Vec::new();
        proof {
            assert(cs@.skip(i as int) =~= Seq::<char>::empty());
        }
        out
    } else {
        let c = cs[i];
        let mut out: Vec<u64> = Vec::new();
        out.push((c as u32) as u64);
        let mut rest = we_chars(cs, i + 1);
        out.append(&mut rest);
        proof {
            assert(cs@.skip(i as int)[0] == cs@[i as int]);
            assert(cs@.skip(i as int).drop_first() =~= cs@.skip(i as int + 1));
            assert(out@ =~= enc_chars(cs@.skip(i as int)));
        }
        out
    }
}

fn we_string(s: &String) -> (out: Vec<u64>)
    ensures
        out@ == enc_string(s@),
        str_short(s@),
{
    let cs = chars_of(s);
    let mut out: Vec<u64> = Vec::new();
    out.push(cs.len() as u64);
    let mut rest = we_chars(&cs, 0);
    out.append(&mut rest);
    proof {
        assert(cs@.skip(0) =~= cs@);
        assert(out@ =~= enc_string(s@));
    }
    out
}

fn we_strings(vs: &Vec<String>, i: usize) -> (out: Vec<u64>)
    requires
        i <= vs@.len(),
    ensures
        out@ == enc_strings(vs.deep_view().skip(i as int)),
        forall|j: int| i <= j < vs@.len() ==> str_short(#[trigger] vs.deep_view()[j]),
    decreases vs@.len() - i,
{
    if i == vs.len() {
        let out: Vec<u64> = Vec::new();
        proof {
            assert(vs.deep_view().skip(i as int) =~= Seq::<Seq<char>>::empty());
        }
        out
    } else {
        let mut out = we_string(&vs[i]);
        let mut rest = we_strings(vs, i + 1);
        out.append(&mut rest);
        proof {
            let dv = vs.deep_view();
            assert(dv.skip(i as int)[0] == dv[i as int]);
            assert(dv[i as int] == vs@[i as int]@);
            assert(dv.skip(i as int).drop_first() =~= dv.skip(i as int + 1));
            assert(out@ =~= enc_strings(dv.skip(i as int)));
        }
        out
    }
}

fn we_string_list(vs: &Vec<String>) -> (out: Vec<u64>)
    ensures
        out@ == enc_string_list(vs.deep_view()),
        strs_short(vs.deep_view()),
{
    let mut out: Vec<u64> = Vec::new();
    out.push(vs.len() as u64);
    let mut rest = we_strings(vs, 0);
    out.append(&mut rest);
    proof {
        assert(vs.deep_view().skip(0) =~= vs.deep_view());
        assert(out@ =~= enc_string_list(vs.deep_view()));
    }
    out
}

fn we_bools(bs: &Vec<bool>, i: usize) -> (out: Vec<u64>)
    requires
        i <= bs@.len(),
    ensures
        out@ == enc_bools(bs@.skip(i as int)),
    decreases bs@.len() - i,
{
    if i == bs.len() {
        let out: Vec<u64> = Vec::new();
        proof {
            assert(bs@.skip(i as int) =~= Seq::<bool>::empty());
        }
        out
    } else {
        let mut out: Vec<u64> = Vec::new();
        if bs[i] {
            out.push(1u64);
        } else {
            out.push(0u64);
        }
        let mut rest = we_bools(bs, i + 1);
        out.append(&mut rest);
        proof {
            assert(bs@.skip(i as int)[0] == bs@[i as int]);
            assert(bs@.skip(i as int).drop_first() =~= bs@.skip(i as int + 1));
            assert(out@ =~= enc_bools(bs@.skip(i as int)));
        }
        out
    }
}

fn we_bool_list(bs: &Vec<bool>) -> (out: Vec<u64>)
    ensures
        out@ == enc_bool_list(bs@),
        bs@.len() <= u64::MAX,
{
    let mut out: Vec<u64> = Vec::new();
    out.push(bs.len() as u64);
    let mut rest = we_bools(bs, 0);
    out.append(&mut rest);
    proof {
        assert(bs@.skip(0) =~= bs@);
        assert(out@ =~= enc_bool_list(bs@));
    }
    out
}

fn we_g_items(l: &Vec<(String, Vec<String>)>, i: usize) -> (out: Vec<u64>)
    requires
        i <= l@.len(),
    ensures
        out@ == enc_g_items(g_view(l@).skip(i as int)),
        forall|j: int| i <= j < l@.len()
            ==> str_short((#[trigger] g_view(l@)[j]).0) && strs_short(g_view(l@)[j].1),
    decreases l@.len() - i,
{
    if i == l.len() {
        let out: Vec<u64> = Vec::new();
        proof {
            assert(g_view(l@).skip(i as int) =~= Seq::<(Seq<char>, Seq<Seq<char>>)>::empty());
        }
        out
    } else {
        let mut out = we_string(&l[i].0);
        let mut part = we_string_list(&l[i].1);
        out.append(&mut part);
        let mut rest = we_g_items(l, i + 1);
        out.append(&mut rest);
        proof {
            let gv = g_view(l@);
            assert(gv.skip(i as int)[0] == gv[i as int]);
            assert(gv.skip(i as int).drop_first() =~= gv.skip(i as int + 1));
            assert(out@ =~= enc_g_items(gv.skip(i as int)));
        }
        out
    }
}

fn we_b_items(l: &Vec<(String, Vec<bool>)>, i: usize) -> (out: Vec<u64>)
    requires
        i <= l@.len(),
    ensures
        out@ == enc_b_items(b_view(l@).skip(i as int)),
        forall|j: int| i <= j < l@.len()
            ==> str_short((#[trigger] b_view(l@)[j]).0) && b_view(l@)[j].1.len() <= u64::MAX,
    decreases l@.len() - i,
{
    if i == l.len() {
        let out: Vec<u64> = Vec::new();
        proof {
            assert(b_view(l@).skip(i as int) =~= Seq::<(Seq<char>, Seq<bool>)>::empty());
        }
        out
    } else {
        let mut out = we_string(&l[i].0);
        let mut part = we_bool_list(&l[i].1);
        out.append(&mut part);
        let mut rest = we_b_items(l, i + 1);
        out.append(&mut rest);
        proof {
            let bv = b_view(l@);
            assert(bv.skip(i as int)[0] == bv[i as int]);
            assert(bv.skip(i as int).drop_first() =~= bv.skip(i as int + 1));
            assert(out@ =~= enc_b_items(bv.skip(i as int)));
        }
        out
    }
}

fn we_u_items(l: &Vec<((usize, String), Vec<String>)>, i: usize) -> (out: Vec<u64>)
    requires
        i <= l@.len(),
    ensures
        out@ == enc_u_items(u_view(l@).skip(i as int)),
        forall|j: int| i <= j < l@.len()
            ==> 0 <= (#[trigger] u_view(l@)[j]).0.0 <= usize::MAX
                && str_short(u_view(l@)[j].0.1) && strs_short(u_view(l@)[j].1),
    decreases l@.len() - i,
{
    if i == l.len() {
        let out: Vec<u64> = Vec::new();
        proof {
            assert(u_view(l@).skip(i as int)
                =~= Seq::<((int, Seq<char>), Seq<Seq<char>>)>::empty());
        }
        out
    } else {
        let mut out: Vec<u64> = Vec::new();
        out.push(l[i].0.0 as u64);
        let mut part = we_string(&l[i].0.1);
        out.append(&mut part);
        let mut part2 = we_string_list(&l[i].1);
        out.append(&mut part2);
        let mut rest = we_u_items(l, i + 1);
        out.append(&mut rest);
        proof {
            let uv = u_view(l@);
            assert(uv.skip(i as int)[0] == uv[i as int]);
            assert(uv.skip(i as int).drop_first() =~= uv.skip(i as int + 1));
            assert((uv[i as int].0.0 as u64) == (l@[i as int].0.0 as u64));
            assert(out@ =~= enc_u_items(uv.skip(i as int)));
        }
        out
    }
}

fn we_id_items(l: &Vec<(usize, usize)>, i: usize) -> (out: Vec<u64>)
    requires
        i <= l@.len(),
    ensures
        out@ == enc_id_items(id_view(l@).skip(i as int)),
    decreases l@.len() - i,
{
    if i == l.len() {
        let out: Vec<u64> = Vec::new();
        proof {
            assert(id_view(l@).skip(i as int) =~= Seq::<(int, int)>::empty());
        }
        out
    } else {
        let mut out: Vec<u64> = Vec::new();
        out.push(l[i].0 as u64);
        out.push(l[i].1 as u64);
        let mut rest = we_id_items(l, i + 1);
        out.append(&mut rest);
        proof {
            let iv = id_view(l@);
            assert(iv.skip(i as int)[0] == iv[i as int]);
            assert(iv.skip(i as int).drop_first() =~= iv.skip(i as int + 1));
            assert(out@ =~= enc_id_items(iv.skip(i as int)));
        }
        out
    }
}

fn wb_bytes(ws: &Vec<u64>, i: usize) -> (out: Vec<u8>)
    requires
        i <= ws@.len(),
    ensures
        out@ == words_bytes(ws@.skip(i as int)),
    decreases ws@.len() - i,
{
    if i == ws.len() {
        let out: Vec<u8> = Vec::new();
        proof {
            assert(ws@.skip(i as int) =~= Seq::<u64>::empty());
        }
        out
    } else {
        let x = ws[i];
        let mut out: Vec<u8> = Vec::new();
        out.push((x & 0xff) as u8);
        out.push(((x >> 8) & 0xff) as u8);
        out.push(((x >> 16) & 0xff) as u8);
        out.push(((x >> 24) & 0xff) as u8);
        out.push(((x >> 32) & 0xff) as u8);
        out.push(((x >> 40) & 0xff) as u8);
        out.push(((x >> 48) & 0xff) as u8);
        out.push(((x >> 56) & 0xff) as u8);
        let mut rest = wb_bytes(ws, i + 1);
        out.append(&mut rest);
        proof {
            assert(ws@.skip(i as int)[0] == ws@[i as int]);
            assert(ws@.skip(i as int).drop_first() =~= ws@.skip(i as int + 1));
            assert(out@ =~= words_bytes(ws@.skip(i as int)));
        }
        out
    }
}

/// The byte form of the engine state: its record, encoded as a stream of
/// little-endian words.
pub fn to_bytes(m: &SRMap<u64>) -> (out: Vec<u8>)
    ensures
        out@ == words_bytes(enc_record(record_of(*m))),
        record_valid(record_of(*m)),
{
    let mut words: Vec<u64> = Vec::new();
    words.push(m.meta);
    words.push(m.largest as u64);
    words.push(m.g_map.len() as u64);
    let mut part = we_g_items(&m.g_map, 0);
    words.append(&mut part);
    words.push(m.b_map.len() as u64);
    let mut part = we_b_items(&m.b_map, 0);
    words.append(&mut part);
    words.push(m.u_map.len() as u64);
    let mut part = we_u_items(&m.u_map, 0);
    words.append(&mut part);
    words.push(m.id_store.len() as u64);
    let mut part = we_id_items(&m.id_store, 0);
    words.append(&mut part);
    proof {
        assert(g_view(m.g_map@).skip(0) =~= g_view(m.g_map@));
        assert(b_view(m.b_map@).skip(0) =~= b_view(m.b_map@));
        assert(u_view(m.u_map@).skip(0) =~= u_view(m.u_map@));
        assert(id_view(m.id_store@).skip(0) =~= id_view(m.id_store@));
        assert(words@ =~= enc_record(record_of(*m)));
        assert forall|j: int| 0 <= j < id_view(m.id_store@).len()
            implies 0 <= (#[trigger] id_view(m.id_store@)[j]).0 <= usize::MAX
                && 0 <= id_view(m.id_store@)[j].1 <= usize::MAX by {
            assert(id_view(m.id_store@)[j].0 == m.id_store@[j].0 as int);
            assert(id_view(m.id_store@)[j].1 == m.id_store@[j].1 as int);
        }
        assert(record_valid(record_of(*m)));
    }
    let out = wb_bytes(&words, 0);
    proof {
        assert(words@.skip(0) =~= words@);
    }
    out
}

// ------------------------------------------------------------ exec decode

fn string_of(cs: &Vec<char>) -> (s: String)
    ensures
        s@ == cs@,
{
    let mut s = String::new();
    let mut i: usize = 0;
    while i < cs.len()
        invariant
            i <= cs@.len(),
            s@ == cs@.take(i as int),
        decreases cs@.len() - i,
    {
        push_char(&mut s, cs[i]);
        proof {
            assert(cs@.take(i as int).push(cs@[i as int]) =~= cs@.take(i as int + 1));
        }
        i = i + 1;
    }
    proof {
        assert(cs@.take(cs@.len() as int) =~= cs@);
    }
    s
}

fn rd_word(ws: &Vec<u64>, pos: usize) -> (r: Option<(u64, usize)>)
    requires
        pos <= ws@.len(),
    ensures
        match r {
            Some((x, p2)) => p2 == pos + 1 && p2 <= ws@.len()
                && dec_word(ws@.skip(pos as int)) == Some((x, ws@.skip(p2 as int))),
            None => dec_word(ws@.skip(pos as int)) is None,
        },
{
    if pos < ws.len() {
        proof {
            assert(ws@.skip(pos as int)[0] == ws@[pos as int]);
            assert(ws@.skip(pos as int).drop_first() =~= ws@.skip(pos as int + 1));
        }
        Some((ws[pos], pos + 1))
    } else {
        proof {
            assert(ws@.skip(pos as int).len() == 0);
        }
        None
    }
}

fn rd_chars(ws: &Vec<u64>, pos: usize, n: u64) -> (r: Option<(Vec<char>, usize)>)
    requires
        pos <= ws@.len(),
    ensures
        match r {
            Some((cs, p2)) => p2 <= ws@.len()
                && dec_chars(n as int, ws@.skip(pos as int)) == Some((cs@, ws@.skip(p2 as int))),
            None => dec_chars(n as int, ws@.skip(pos as int)) is None,
        },
    decreases n,
{
    if n == 0 {
        return Some((Vec::new(), pos));
    }
    match rd_word(ws, pos) {
        None => None,
        Some((x, p1)) => {
            if x < 0xD800 || (0xE000 <= x && x < 0x110000) {
                match char_from_u32(x as u32) {
                    None => None,
                    Some(c) => {
                        proof {
                            vstd::utf8::char_u32_cast(c, x as u32);
                        }
                        match rd_chars(ws, p1, n - 1) {
                            None => None,
                            Some((mut cs, p2)) => {
                                let ghost before = cs@;
                                cs.insert(0, c);
                                proof {
                                    assert(cs@ =~= seq![c] + before);
                                }
                                Some((cs, p2))
                            },
                        }
                    },
                }
            } else {
                None
            }
        },
    }
}

fn rd_string(ws: &Vec<u64>, pos: usize) -> (r: Option<(String, usize)>)
    requires
        pos <= ws@.len(),
    ensures
        match r {
            Some((s, p2)) => p2 <= ws@.len()
                && dec_string(ws@.skip(pos as int)) == Some((s@, ws@.skip(p2 as int))),
            None => dec_string(ws@.skip(pos as int)) is None,
        },
{
    match rd_word(ws, pos) {
        None => None,
        Some((n, p1)) => match rd_chars(ws, p1, n) {
            None => None,
            Some((cs, p2)) => Some((string_of(&cs), p2)),
        },
    }
}

fn rd_strings(ws: &Vec<u64>, pos: usize, n: u64) -> (r: Option<(Vec<String>, usize)>)
    requires
        pos <= ws@.len(),
    ensures
        match r {
            Some((vs, p2)) => p2 <= ws@.len()
                && dec_strings(n as int, ws@.skip(pos as int))
                    == Some((vs.deep_view(), ws@.skip(p2 as int))),
            None => dec_strings(n as int, ws@.skip(pos as int)) is None,
        },
    decreases n,
{
    if n == 0 {
        let vs: Vec<String> = Vec::new();
        proof {
            assert(vs.deep_view() =~= Seq::<Seq<char>>::empty());
        }
        return Some((vs, pos));
    }
    match rd_string(ws, pos) {
        None => None,
        Some((s, p1)) => match rd_strings(ws, p1, n - 1) {
            None => None,
            Some((mut vs, p2)) => {
                let ghost before = vs.deep_view();
                vs.insert(0, s);
                proof {
                    assert(vs.deep_view() =~= seq![s@] + before);
                }
                Some((vs, p2))
            },
        },
    }
}

fn rd_string_list(ws: &Vec<u64>, pos: usize) -> (r: Option<(Vec<String>, usize)>)
    requires
        pos <= ws@.len(),
    ensures
        match r {
            Some((vs, p2)) => p2 <= ws@.len()
                && dec_string_list(ws@.skip(pos as int))
                    == Some((vs.deep_view(), ws@.skip(p2 as int))),
            None => dec_string_list(ws@.skip(pos as int)) is None,
        },
{
    match rd_word(ws, pos) {
        None => None,
        Some((n, p1)) => rd_strings(ws, p1, n),
    }
}

fn rd_bools(ws: &Vec<u64>, pos: usize, n: u64) -> (r: Option<(Vec<bool>, usize)>)
    requires
        pos <= ws@.len(),
    ensures
        match r {
            Some((bs, p2)) => p2 <= ws@.len()
                && dec_bools(n as int, ws@.skip(pos as int)) == Some((bs@, ws@.skip(p2 as int))),
            None => dec_bools(n as int, ws@.skip(pos as int)) is None,
        },
    decreases n,
{
    if n == 0 {
        return Some((Vec::new(), pos));
    }
    match rd_word(ws, pos) {
        None => None,
        Some((x, p1)) => {
            if x == 0 || x == 1 {
                match rd_bools(ws, p1, n - 1) {
                    None => None,
                    Some((mut bs, p2)) => {
                        let ghost before = bs@;
                        bs.insert(0, x == 1);
                        proof {
                            assert(bs@ =~= seq![x == 1] + before);
                        }
                        Some((bs, p2))
                    },
                }
            } else {
                None
            }
        },
    }
}

fn rd_bool_list(ws: &Vec<u64>, pos: usize) -> (r: Option<(Vec<bool>, usize)>)
    requires
        pos <= ws@.len(),
    ensures
        match r {
            Some((bs, p2)) => p2 <= ws@.len()
                && dec_bool_list(ws@.skip(pos as int)) == Some((bs@, ws@.skip(p2 as int))),
            None => dec_bool_list(ws@.skip(pos as int)) is None,
        },
{
    match rd_word(ws, pos) {
        None => None,
        Some((n, p1)) => rd_bools(ws, p1, n),
    }
}

fn rd_g_items(ws: &Vec<u64>, pos: usize, n: u64) -> (r: Option<(Vec<(String, Vec<String>)>, usize)>)
    requires
        pos <= ws@.len(),
    ensures
        match r {
            Some((l, p2)) => p2 <= ws@.len()
                && dec_g_items(n as int, ws@.skip(pos as int))
                    == Some((g_view(l@), ws@.skip(p2 as int))),
            None => dec_g_items(n as int, ws@.skip(pos as int)) is None,
        },
    decreases n,
{
    if n == 0 {
        let l: Vec<(String, Vec<String>)> = Vec::new();
        proof {
            assert(g_view(l@) =~= Seq::<(Seq<char>, Seq<Seq<char>>)>::empty());
        }
        return Some((l, pos));
    }
    match rd_string(ws, pos) {
        None => None,
        Some((k, p1)) => match rd_string_list(ws, p1) {
            None => None,
            Some((vs, p2)) => match rd_g_items(ws, p2, n - 1) {
                None => None,
                Some((mut l, p3)) => {
                    let ghost before = g_view(l@);
                    let ghost kv = (k@, vs.deep_view());
                    l.insert(0, (k, vs));
                    proof {
                        assert(g_view(l@) =~= seq![kv] + before);
                    }
                    Some((l, p3))
                },
            },
        },
    }
}

fn rd_b_items(ws: &Vec<u64>, pos: usize, n: u64) -> (r: Option<(Vec<(String, Vec<bool>)>, usize)>)
    requires
        pos <= ws@.len(),
    ensures
        match r {
            Some((l, p2)) => p2 <= ws@.len()
                && dec_b_items(n as int, ws@.skip(pos as int))
                    == Some((b_view(l@), ws@.skip(p2 as int))),
            None => dec_b_items(n as int, ws@.skip(pos as int)) is None,
        },
    decreases n,
{
    if n == 0 {
        let l: Vec<(String, Vec<bool>)> = Vec::new();
        proof {
            assert(b_view(l@) =~= Seq::<(Seq<char>, Seq<bool>)>::empty());
        }
        return Some((l, pos));
    }
    match rd_string(ws, pos) {
        None => None,
        Some((k, p1)) => match rd_bool_list(ws, p1) {
            None => None,
            Some((bs, p2)) => match rd_b_items(ws, p2, n - 1) {
                None => None,
                Some((mut l, p3)) => {
                    let ghost before = b_view(l@);
                    let ghost kv = (k@, bs@);
                    l.insert(0, (k, bs));
                    proof {
                        assert(b_view(l@) =~= seq![kv] + before);
                    }
                    Some((l, p3))
                },
            },
        },
    }
}

fn rd_u_items(ws: &Vec<u64>, pos: usize, n: u64)
    -> (r: Option<(Vec<((usize, String), Vec<String>)>, usize)>)
    requires
        pos <= ws@.len(),
    ensures
        match r {
            Some((l, p2)) => p2 <= ws@.len()
                && dec_u_items(n as int, ws@.skip(pos as int))
                    == Some((u_view(l@), ws@.skip(p2 as int))),
            None => dec_u_items(n as int, ws@.skip(pos as int)) is None,
        },
    decreases n,
{
    if n == 0 {
        let l: Vec<((usize, String), Vec<String>)> = Vec::new();
        proof {
            assert(u_view(l@) =~= Seq::<((int, Seq<char>), Seq<Seq<char>>)>::empty());
        }
        return Some((l, pos));
    }
    match rd_word(ws, pos) {
        None => None,
        Some((uidw, p0)) => {
            if uidw <= usize::MAX as u64 {
                let uid = uidw as usize;
                match rd_string(ws, p0) {
                    None => None,
                    Some((k, p1)) => match rd_string_list(ws, p1) {
                        None => None,
                        Some((vs, p2)) => match rd_u_items(ws, p2, n - 1) {
                            None => None,
                            Some((mut l, p3)) => {
                                let ghost before = u_view(l@);
                                let ghost kv = ((uid as int, k@), vs.deep_view());
                                l.insert(0, ((uid, k), vs));
                                proof {
                                    assert(u_view(l@) =~= seq![kv] + before);
                                }
                                Some((l, p3))
                            },
                        },
                    },
                }
            } else {
                None
            }
        },
    }
}

fn rd_id_items(ws: &Vec<u64>, pos: usize, n: u64) -> (r: Option<(Vec<(usize, usize)>, usize)>)
    requires
        pos <= ws@.len(),
    ensures
        match r {
            Some((l, p2)) => p2 <= ws@.len()
                && dec_id_items(n as int, ws@.skip(pos as int))
                    == Some((id_view(l@), ws@.skip(p2 as int))),
            None => dec_id_items(n as int, ws@.skip(pos as int)) is None,
        },
    decreases n,
{
    if n == 0 {
        let l: Vec<(usize, usize)> = Vec::new();
        proof {
            assert(id_view(l@) =~= Seq::<(int, int)>::empty());
        }
        return Some((l, pos));
    }
    match rd_word(ws, pos) {
        None => None,
        Some((uidw, p0)) => {
            if uidw <= usize::MAX as u64 {
                match rd_word(ws, p0) {
                    None => None,
                    Some((slotw, p1)) => {
                        if slotw <= usize::MAX as u64 {
                            match rd_id_items(ws, p1, n - 1) {
                                None => None,
                                Some((mut l, p2)) => {
                                    let ghost before = id_view(l@);
                                    let ghost kv = (uidw as int, slotw as int);
                                    l.insert(0, (uidw as usize, slotw as usize));
                                    proof {
                                        assert(id_view(l@) =~= seq![kv] + before);
                                    }
                                    Some((l, p2))
                                },
                            }
                        } else {
                            None
                        }
                    },
                }
            } else {
                None
            }
        },
    }
}

fn rd_words(b: &Vec<u8>, pos: usize) -> (r: Option<Vec<u64>>)
    requires
        pos <= b@.len(),
    ensures
        match r {
            Some(ws) => bytes_words(b@.skip(pos as int)) == Some(ws@),
            None => bytes_words(b@.skip(pos as int)) is None,
        },
    decreases b@.len() - pos,
{
    if pos == b.len() {
        let ws: Vec<u64> = Vec::new();
        proof {
            assert(b@.skip(pos as int) =~= Seq::<u8>::empty());
            assert(ws@ =~= Seq::<u64>::empty());
        }
        return Some(ws);
    }
    if b.len() - pos < 8 {
        return None;
    }
    let x = (b[pos] as u64) | ((b[pos + 1] as u64) << 8) | ((b[pos + 2] as u64) << 16)
        | ((b[pos + 3] as u64) << 24) | ((b[pos + 4] as u64) << 32)
        | ((b[pos + 5] as u64) << 40) | ((b[pos + 6] as u64) << 48)
        | ((b[pos + 7] as u64) << 56);
    proof {
        let s = b@.skip(pos as int);
        assert(s.take(8)[0] == b@[pos as int]);
        assert(s.take(8)[1] == b@[pos as int + 1]);
        assert(s.take(8)[2] == b@[pos as int + 2]);
        assert(s.take(8)[3] == b@[pos as int + 3]);
        assert(s.take(8)[4] == b@[pos as int + 4]);
        assert(s.take(8)[5] == b@[pos as int + 5]);
        assert(s.take(8)[6] == b@[pos as int + 6]);
        assert(s.take(8)[7] == b@[pos as int + 7]);
        assert(bytes_word(s.take(8)) == x);
        assert(s.skip(8) =~= b@.skip(pos as int + 8));
    }
    match rd_words(b, pos + 8) {
        None => None,
        Some(mut ws) => {
            let ghost before = ws@;
            ws.insert(0, x);
            proof {
                assert(ws@ =~= seq![x] + before);
            }
            Some(ws)
        },
    }
}

/// The engine state a byte form holds, if the bytes are a whole encoding;
/// the returned state carries exactly the decoded record. Decoding does
/// not re-check the engine's structural invariants: a caller who accepts
/// bytes from outside must treat the result as data.
pub fn from_bytes(b: &Vec<u8>) -> (r: Option<SRMap<u64>>)
    ensures
        match r {
            Some(m2) => dec_bytes(b@) == Some(record_of(m2)),
            None => dec_bytes(b@) is None,
        },
{
    proof {
        assert(b@.skip(0) =~= b@);
    }
    let ws = match rd_words(b, 0) {
        None => {
            return None;
        },
        Some(ws) => ws,
    };
    let (meta, p0) = match rd_word(&ws, 0) {
        None => {
            return None;
        },
        Some(x) => x,
    };
    let (largestw, p1) = match rd_word(&ws, p0) {
        None => {
            return None;
        },
        Some(x) => x,
    };
    if !(largestw <= usize::MAX as u64) {
        return None;
    }
    let (ng, p2) = match rd_word(&ws, p1) {
        None => {
            return None;
        },
        Some(x) => x,
    };
    let (gl, p3) = match rd_g_items(&ws, p2, ng) {
        None => {
            return None;
        },
        Some(x) => x,
    };
    let (nb, p4) = match rd_word(&ws, p3) {
        None => {
            return None;
        },
        Some(x) => x,
    };
    let (bl, p5) = match rd_b_items(&ws, p4, nb) {
        None => {
            return None;
        },
        Some(x) => x,
    };
    let (nu, p6) = match rd_word(&ws, p5) {
        None => {
            return None;
        },
        Some(x) => x,
    };
    let (ul, p7) = match rd_u_items(&ws, p6, nu) {
        None => {
            return None;
        },
        Some(x) => x,
    };
    let (ni, p8) = match rd_word(&ws, p7) {
        None => {
            return None;
        },
        Some(x) => x,
    };
    let (il, p9) = match rd_id_items(&ws, p8, ni) {
        None => {
            return None;
        },
        Some(x) => x,
    };
    if p9 != ws.len() {
        proof {
            assert(ws@.skip(p9 as int).len() > 0);
        }
        return None;
    }
    let m2 = SRMap {
        g_map: gl,
        b_map: bl,
        u_map: ul,
        id_store: il,
        largest: largestw as usize,
        meta,
    };
    proof {
        assert(ws@.skip(p9 as int).len() == 0);
        let rec = StateRecord {
            gl: g_view(m2.g_map@),
            bl: b_view(m2.b_map@),
            ul: u_view(m2.u_map@),
            il: id_view(m2.id_store@),
            largest: largestw as int,
            meta,
        };
        assert(dec_bytes(b@) == Some(rec));
        assert(rec =~= record_of(m2));
    }
    Some(m2)
}

} // verus!
