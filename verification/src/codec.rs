//! The fixed binary encodings the engine owns: the persisted state blob
//! and the unlock-response message.
//!
//! Strings are encoded as a character count followed by each character's
//! code, maps as a pair count followed by the pairs in order; all numbers
//! are little-endian.  Decoding is total: any input that is not exactly an
//! encoding comes back as `None`.

use vstd::prelude::*;
use vstd::bytes::spec_u64_to_le_bytes;
use vstd::bytes::spec_u64_from_le_bytes;
use vstd::bytes::spec_u32_to_le_bytes;
use vstd::bytes::spec_u32_from_le_bytes;
use vstd::bytes::lemma_auto_spec_u64_to_from_le_bytes;
use vstd::bytes::lemma_auto_spec_u32_to_from_le_bytes;
use vstd::bytes::u64_to_le_bytes;
use vstd::bytes::u64_from_le_bytes;
use vstd::bytes::u32_to_le_bytes;
use vstd::bytes::u32_from_le_bytes;
use vstd::utf8::is_scalar;
use vstd::utf8::char_is_scalar;
use vstd::utf8::char_u32_cast;
use vstd::slice::slice_subrange;
use crate::message::ResponseModel;
use crate::util::StrMap;
use crate::util::MutDict;
use crate::message::UnlockResponse;
use crate::message::response_model;

verus! {

/// Relies on `String::push`: appends exactly the given character.
#[verifier::external_body]
fn push_char(s: &mut String, c: char)
    ensures
        final(s)@ == old(s)@.push(c),
{
    s.push(c);
}

/// Relies on `char::from_u32`: `Some` exactly for Unicode scalar values
/// (not a surrogate, at most 0x10FFFF), and the character has that code.
#[verifier::external_body]
fn char_from_u32(v: u32) -> (r: Option<char>)
    ensures
        r is Some <==> is_scalar(v),
        match r {
            Some(c) => c as u32 == v,
            None => true,
        },
{
    char::from_u32(v)
}

/// The codes of a string's characters, four bytes each.
pub open spec fn spec_encode_chars(s: Seq<char>) -> Seq<u8>
    decreases s.len(),
{
    if s.len() == 0 {
        Seq::empty()
    } else {
        spec_u32_to_le_bytes(s.first() as u32) + spec_encode_chars(s.drop_first())
    }
}

/// A string: its character count, then the characters.
pub open spec fn spec_encode_str(s: Seq<char>) -> Seq<u8> {
    spec_u64_to_le_bytes(s.len() as u64) + spec_encode_chars(s)
}

/// An optional timestamp: a presence byte, then the value if present.
pub open spec fn spec_encode_opt_i64(o: Option<i64>) -> Seq<u8> {
    match o {
        None => seq![0u8],
        Some(v) => seq![1u8] + spec_u64_to_le_bytes(v as u64),
    }
}

/// Timestamp pairs, in order: each a name and a value.
pub open spec fn spec_encode_i64_items(ps: Seq<(Seq<char>, i64)>) -> Seq<u8>
    decreases ps.len(),
{
    if ps.len() == 0 {
        Seq::empty()
    } else {
        spec_encode_str(ps.first().0) + spec_u64_to_le_bytes(ps.first().1 as u64)
            + spec_encode_i64_items(ps.drop_first())
    }
}

/// Flag pairs, in order: each a name and a one-byte flag.
pub open spec fn spec_encode_bool_items(ps: Seq<(Seq<char>, bool)>) -> Seq<u8>
    decreases ps.len(),
{
    if ps.len() == 0 {
        Seq::empty()
    } else {
        spec_encode_str(ps.first().0) + seq![if ps.first().1 { 1u8 } else { 0u8 }]
            + spec_encode_bool_items(ps.drop_first())
    }
}

/// A timestamp map: its pair count, then the pairs.
pub open spec fn spec_encode_i64_map(ps: Seq<(Seq<char>, i64)>) -> Seq<u8> {
    spec_u64_to_le_bytes(ps.len() as u64) + spec_encode_i64_items(ps)
}

/// A flag map: its pair count, then the pairs.
pub open spec fn spec_encode_bool_map(ps: Seq<(Seq<char>, bool)>) -> Seq<u8> {
    spec_u64_to_le_bytes(ps.len() as u64) + spec_encode_bool_items(ps)
}

/// The whole state blob: the last-unlocked and last-locked timestamp maps
/// and the lock-flag map, in that order.
pub open spec fn spec_encode_state(
    lu: Seq<(Seq<char>, i64)>,
    ll: Seq<(Seq<char>, i64)>,
    il: Seq<(Seq<char>, bool)>,
) -> Seq<u8> {
    spec_encode_i64_map(lu) + spec_encode_i64_map(ll) + spec_encode_bool_map(il)
}

/// An unlock response: a tag byte, then the variant's fields.
pub open spec fn spec_encode_response(m: ResponseModel) -> Seq<u8> {
    match m {
        ResponseModel::Success { locked_at } => seq![0u8] + spec_encode_opt_i64(locked_at),
        ResponseModel::Fail { cause, unlocked_at } => seq![1u8] + spec_encode_str(cause)
            + spec_encode_opt_i64(unlocked_at),
    }
}

/// Reads eight bytes as a number.
pub open spec fn spec_read_u64(b: Seq<u8>, i: int) -> Option<(u64, int)> {
    if 0 <= i && i + 8 <= b.len() {
        Some((spec_u64_from_le_bytes(b.subrange(i, i + 8)), i + 8))
    } else {
        None
    }
}

/// Reads `n` characters, each a four-byte code that must be a Unicode
/// scalar value.
pub open spec fn spec_read_chars(b: Seq<u8>, i: int, n: nat) -> Option<(Seq<char>, int)>
    decreases n,
{
    if n == 0 {
        Some((Seq::empty(), i))
    } else if 0 <= i && i + 4 <= b.len() {
        let v = spec_u32_from_le_bytes(b.subrange(i, i + 4));
        if is_scalar(v) {
            match spec_read_chars(b, i + 4, (n - 1) as nat) {
                Some(p) => Some((seq![v as char] + p.0, p.1)),
                None => None,
            }
        } else {
            None
        }
    } else {
        None
    }
}

/// Reads a string: a character count, then the characters.
pub open spec fn spec_read_str(b: Seq<u8>, i: int) -> Option<(Seq<char>, int)> {
    match spec_read_u64(b, i) {
        Some(p) => spec_read_chars(b, p.1, p.0 as nat),
        None => None,
    }
}

/// Reads one byte.
pub open spec fn spec_read_byte(b: Seq<u8>, i: int) -> Option<(u8, int)> {
    if 0 <= i && i + 1 <= b.len() {
        Some((b[i], i + 1))
    } else {
        None
    }
}

/// Reads an optional timestamp.
pub open spec fn spec_read_opt_i64(b: Seq<u8>, i: int) -> Option<(Option<i64>, int)> {
    match spec_read_byte(b, i) {
        Some(p) => if p.0 == 0 {
            Some((None, p.1))
        } else if p.0 == 1 {
            match spec_read_u64(b, p.1) {
                Some(q) => Some((Some(q.0 as i64), q.1)),
                None => None,
            }
        } else {
            None
        },
        None => None,
    }
}

/// Reads `n` timestamp pairs.
pub open spec fn spec_read_i64_items(b: Seq<u8>, i: int, n: nat) -> Option<
    (Seq<(Seq<char>, i64)>, int),
>
    decreases n,
{
    if n == 0 {
        Some((Seq::empty(), i))
    } else {
        match spec_read_str(b, i) {
            Some(p) => match spec_read_u64(b, p.1) {
                Some(q) => match spec_read_i64_items(b, q.1, (n - 1) as nat) {
                    Some(r) => Some((seq![(p.0, q.0 as i64)] + r.0, r.1)),
                    None => None,
                },
                None => None,
            },
            None => None,
        }
    }
}

/// Reads `n` flag pairs; a flag byte must be 0 or 1.
pub open spec fn spec_read_bool_items(b: Seq<u8>, i: int, n: nat) -> Option<
    (Seq<(Seq<char>, bool)>, int),
>
    decreases n,
{
    if n == 0 {
        Some((Seq::empty(), i))
    } else {
        match spec_read_str(b, i) {
            Some(p) => match spec_read_byte(b, p.1) {
                Some(q) => if q.0 == 0 || q.0 == 1 {
                    match spec_read_bool_items(b, q.1, (n - 1) as nat) {
                        Some(r) => Some((seq![(p.0, q.0 == 1)] + r.0, r.1)),
                        None => None,
                    }
                } else {
                    None
                },
                None => None,
            },
            None => None,
        }
    }
}

/// Reads a timestamp map.
pub open spec fn spec_read_i64_map(b: Seq<u8>, i: int) -> Option<(Seq<(Seq<char>, i64)>, int)> {
    match spec_read_u64(b, i) {
        Some(p) => spec_read_i64_items(b, p.1, p.0 as nat),
        None => None,
    }
}

/// Reads a flag map.
pub open spec fn spec_read_bool_map(b: Seq<u8>, i: int) -> Option<(Seq<(Seq<char>, bool)>, int)> {
    match spec_read_u64(b, i) {
        Some(p) => spec_read_bool_items(b, p.1, p.0 as nat),
        None => None,
    }
}

/// No two pairs carry the same name.
pub open spec fn distinct_keys<V>(ps: Seq<(Seq<char>, V)>) -> bool {
    forall|i: int, j: int| 0 <= i < j < ps.len() ==> ps[i].0 != ps[j].0
}

/// What a state blob decodes to: the three maps, provided the input is
/// consumed exactly and each map's names are distinct.  Anything else is
/// not a state blob.
pub open spec fn spec_decode_state(b: Seq<u8>) -> Option<
    (Seq<(Seq<char>, i64)>, Seq<(Seq<char>, i64)>, Seq<(Seq<char>, bool)>),
> {
    match spec_read_i64_map(b, 0) {
        Some(p) => match spec_read_i64_map(b, p.1) {
            Some(q) => match spec_read_bool_map(b, q.1) {
                Some(r) => if r.1 == b.len() && distinct_keys(p.0) && distinct_keys(q.0)
                    && distinct_keys(r.0) {
                    Some((p.0, q.0, r.0))
                } else {
                    None
                },
                None => None,
            },
            None => None,
        },
        None => None,
    }
}

/// What a response message decodes to.
pub open spec fn spec_decode_response(b: Seq<u8>) -> Option<ResponseModel> {
    match spec_read_byte(b, 0) {
        Some(t) => if t.0 == 0 {
            match spec_read_opt_i64(b, t.1) {
                Some(p) => if p.1 == b.len() {
                    Some(ResponseModel::Success { locked_at: p.0 })
                } else {
                    None
                },
                None => None,
            }
        } else if t.0 == 1 {
            match spec_read_str(b, t.1) {
                Some(c) => match spec_read_opt_i64(b, c.1) {
                    Some(p) => if p.1 == b.len() {
                        Some(ResponseModel::Fail { cause: c.0, unlocked_at: p.0 })
                    } else {
                        None
                    },
                    None => None,
                },
                None => None,
            }
        } else {
            None
        },
        None => None,
    }
}

/// Appends a number.
fn emit_u64(out: &mut Vec<u8>, x: u64)
    ensures
        final(out)@ == old(out)@ + spec_u64_to_le_bytes(x),
{
    let mut bs = u64_to_le_bytes(x);
    out.append(&mut bs);
}

/// Encoding a string one character longer appends that character's code.
proof fn lemma_encode_chars_push(s: Seq<char>, c: char)
    ensures
        spec_encode_chars(s.push(c)) == spec_encode_chars(s) + spec_u32_to_le_bytes(c as u32),
    decreases s.len(),
{
    if s.len() == 0 {
        assert(s.push(c).drop_first() =~= Seq::<char>::empty());
        assert(s.push(c).first() == c);
        assert(spec_encode_chars(Seq::<char>::empty()) =~= Seq::<u8>::empty());
        assert(spec_encode_chars(s.push(c)) == spec_u32_to_le_bytes(s.push(c).first() as u32)
            + spec_encode_chars(s.push(c).drop_first()));
        assert(spec_encode_chars(s.push(c)) =~= spec_u32_to_le_bytes(c as u32));
        assert(spec_encode_chars(s) + spec_u32_to_le_bytes(c as u32) =~= spec_u32_to_le_bytes(
            c as u32,
        ));
    } else {
        assert(s.push(c).drop_first() =~= s.drop_first().push(c));
        assert(s.push(c).first() == s.first());
        lemma_encode_chars_push(s.drop_first(), c);
        assert(spec_encode_chars(s.push(c)) =~= spec_encode_chars(s) + spec_u32_to_le_bytes(
            c as u32,
        ));
    }
}

/// Appends a string's encoding.
fn emit_str(out: &mut Vec<u8>, s: &str)
    ensures
        final(out)@ == old(out)@ + spec_encode_str(s@),
{
    let n = s.unicode_len();
    emit_u64(out, n as u64);
    let ghost mid = out@;
    let mut i: usize = 0;
    proof {
        assert(s@.subrange(0, 0) =~= Seq::<char>::empty());
        assert(mid + spec_encode_chars(s@.subrange(0, 0)) =~= mid);
    }
    while i < n
        invariant
            i <= n,
            n == s@.len(),
            out@ == mid + spec_encode_chars(s@.subrange(0, i as int)),
        decreases n - i,
    {
        let c = s.get_char(i);
        let mut bs = u32_to_le_bytes(c as u32);
        out.append(&mut bs);
        proof {
            assert(s@.subrange(0, i + 1) =~= s@.subrange(0, i as int).push(c));
            lemma_encode_chars_push(s@.subrange(0, i as int), c);
            assert(out@ =~= mid + spec_encode_chars(s@.subrange(0, i + 1)));
        }
        i = i + 1;
    }
    proof {
        assert(s@.subrange(0, n as int) =~= s@);
        assert(out@ =~= old(out)@ + spec_encode_str(s@));
    }
}

/// Appends an optional timestamp.
fn emit_opt_i64(out: &mut Vec<u8>, o: &Option<i64>)
    ensures
        final(out)@ == old(out)@ + spec_encode_opt_i64(*o),
{
    match o {
        None => {
            out.push(0u8);
            proof {
                assert(out@ =~= old(out)@ + seq![0u8]);
            }
        },
        Some(v) => {
            out.push(1u8);
            proof {
                assert(out@ =~= old(out)@ + seq![1u8]);
            }
            emit_u64(out, *v as u64);
            proof {
                assert(out@ =~= old(out)@ + spec_encode_opt_i64(Some(*v)));
            }
        },
    }
}

/// Encoding one more timestamp pair appends that pair's encoding.
proof fn lemma_encode_i64_items_push(ps: Seq<(Seq<char>, i64)>, p: (Seq<char>, i64))
    ensures
        spec_encode_i64_items(ps.push(p)) == spec_encode_i64_items(ps) + spec_encode_str(p.0)
            + spec_u64_to_le_bytes(p.1 as u64),
    decreases ps.len(),
{
    if ps.len() == 0 {
        assert(ps.push(p).drop_first() =~= Seq::<(Seq<char>, i64)>::empty());
        assert(ps.push(p).first() == p);
        assert(spec_encode_i64_items(Seq::<(Seq<char>, i64)>::empty()) =~= Seq::<u8>::empty());
        assert(spec_encode_i64_items(ps.push(p)) == spec_encode_str(ps.push(p).first().0)
            + spec_u64_to_le_bytes(ps.push(p).first().1 as u64) + spec_encode_i64_items(
            ps.push(p).drop_first(),
        ));
        assert(spec_encode_i64_items(ps.push(p)) =~= spec_encode_str(p.0)
            + spec_u64_to_le_bytes(p.1 as u64));
        assert(spec_encode_i64_items(ps) + spec_encode_str(p.0) + spec_u64_to_le_bytes(
            p.1 as u64,
        ) =~= spec_encode_str(p.0) + spec_u64_to_le_bytes(p.1 as u64));
    } else {
        assert(ps.push(p).drop_first() =~= ps.drop_first().push(p));
        assert(ps.push(p).first() == ps.first());
        lemma_encode_i64_items_push(ps.drop_first(), p);
        assert(spec_encode_i64_items(ps.push(p)) =~= spec_encode_i64_items(ps)
            + spec_encode_str(p.0) + spec_u64_to_le_bytes(p.1 as u64));
    }
}

/// Encoding one more flag pair appends that pair's encoding.
proof fn lemma_encode_bool_items_push(ps: Seq<(Seq<char>, bool)>, p: (Seq<char>, bool))
    ensures
        spec_encode_bool_items(ps.push(p)) == spec_encode_bool_items(ps) + spec_encode_str(p.0)
            + seq![if p.1 { 1u8 } else { 0u8 }],
    decreases ps.len(),
{
    if ps.len() == 0 {
        assert(ps.push(p).drop_first() =~= Seq::<(Seq<char>, bool)>::empty());
        assert(ps.push(p).first() == p);
        assert(spec_encode_bool_items(Seq::<(Seq<char>, bool)>::empty()) =~= Seq::<u8>::empty());
        assert(spec_encode_bool_items(ps.push(p)) == spec_encode_str(ps.push(p).first().0)
            + seq![if ps.push(p).first().1 { 1u8 } else { 0u8 }] + spec_encode_bool_items(
            ps.push(p).drop_first(),
        ));
        assert(spec_encode_bool_items(ps.push(p)) =~= spec_encode_str(p.0) + seq![
            if p.1 {
                1u8
            } else {
                0u8
            },
        ]);
        assert(spec_encode_bool_items(ps) + spec_encode_str(p.0) + seq![
            if p.1 {
                1u8
            } else {
                0u8
            },
        ] =~= spec_encode_str(p.0) + seq![
            if p.1 {
                1u8
            } else {
                0u8
            },
        ]);
    } else {
        assert(ps.push(p).drop_first() =~= ps.drop_first().push(p));
        assert(ps.push(p).first() == ps.first());
        lemma_encode_bool_items_push(ps.drop_first(), p);
        assert(spec_encode_bool_items(ps.push(p)) =~= spec_encode_bool_items(ps)
            + spec_encode_str(p.0) + seq![
            if p.1 {
                1u8
            } else {
                0u8
            },
        ]);
    }
}

/// Appends a timestamp map's encoding.
fn emit_i64_map(out: &mut Vec<u8>, m: &StrMap<i64>)
    ensures
        final(out)@ == old(out)@ + spec_encode_i64_map(m@),
{
    let n = m.len();
    emit_u64(out, n as u64);
    let ghost mid = out@;
    let mut i: usize = 0;
    proof {
        assert(m@.subrange(0, 0) =~= Seq::<(Seq<char>, i64)>::empty());
        assert(mid + spec_encode_i64_items(m@.subrange(0, 0)) =~= mid);
    }
    while i < n
        invariant
            i <= n,
            n == m@.len(),
            out@ == mid + spec_encode_i64_items(m@.subrange(0, i as int)),
        decreases n - i,
    {
        let p = m.pair_at(i);
        emit_str(out, p.0.as_str());
        emit_u64(out, *p.1 as u64);
        proof {
            assert(m@.subrange(0, i + 1) =~= m@.subrange(0, i as int).push(m@[i as int]));
            lemma_encode_i64_items_push(m@.subrange(0, i as int), m@[i as int]);
            assert(out@ =~= mid + spec_encode_i64_items(m@.subrange(0, i + 1)));
        }
        i = i + 1;
    }
    proof {
        assert(m@.subrange(0, n as int) =~= m@);
        assert(out@ =~= old(out)@ + spec_encode_i64_map(m@));
    }
}

/// Appends a flag map's encoding.
fn emit_bool_map(out: &mut Vec<u8>, m: &StrMap<bool>)
    ensures
        final(out)@ == old(out)@ + spec_encode_bool_map(m@),
{
    let n = m.len();
    emit_u64(out, n as u64);
    let ghost mid = out@;
    let mut i: usize = 0;
    proof {
        assert(m@.subrange(0, 0) =~= Seq::<(Seq<char>, bool)>::empty());
        assert(mid + spec_encode_bool_items(m@.subrange(0, 0)) =~= mid);
    }
    while i < n
        invariant
            i <= n,
            n == m@.len(),
            out@ == mid + spec_encode_bool_items(m@.subrange(0, i as int)),
        decreases n - i,
    {
        let p = m.pair_at(i);
        emit_str(out, p.0.as_str());
        out.push(if *p.1 {
            1u8
        } else {
            0u8
        });
        proof {
            assert(m@.subrange(0, i + 1) =~= m@.subrange(0, i as int).push(m@[i as int]));
            lemma_encode_bool_items_push(m@.subrange(0, i as int), m@[i as int]);
            assert(out@ =~= mid + spec_encode_bool_items(m@.subrange(0, i + 1)));
        }
        i = i + 1;
    }
    proof {
        assert(m@.subrange(0, n as int) =~= m@);
        assert(out@ =~= old(out)@ + spec_encode_bool_map(m@));
    }
}

/// Encodes the state blob.
pub fn encode_state(lu: &StrMap<i64>, ll: &StrMap<i64>, il: &StrMap<bool>) -> (r: Vec<u8>)
    ensures
        r@ == spec_encode_state(lu@, ll@, il@),
{
    let mut out: Vec<u8> = Vec::new();
    emit_i64_map(&mut out, lu);
    emit_i64_map(&mut out, ll);
    emit_bool_map(&mut out, il);
    proof {
        assert(out@ =~= spec_encode_state(lu@, ll@, il@));
    }
    out
}

/// Encodes an unlock response.
pub fn encode_response(m: &UnlockResponse) -> (r: Vec<u8>)
    ensures
        r@ == spec_encode_response(response_model(*m)),
{
    let mut out: Vec<u8> = Vec::new();
    match m {
        UnlockResponse::Success { locked_at } => {
            out.push(0u8);
            proof {
                assert(out@ =~= seq![0u8]);
            }
            emit_opt_i64(&mut out, locked_at);
        },
        UnlockResponse::Fail { cause, unlocked_at } => {
            out.push(1u8);
            proof {
                assert(out@ =~= seq![1u8]);
            }
            emit_str(&mut out, cause.as_str());
            emit_opt_i64(&mut out, unlocked_at);
        },
    }
    proof {
        assert(out@ =~= spec_encode_response(response_model(*m)));
    }
    out
}

/// Reads a number at `i`.
fn read_u64_at(b: &[u8], i: usize) -> (r: Option<(u64, usize)>)
    requires
        i <= b@.len(),
    ensures
        match r {
            Some(p) => spec_read_u64(b@, i as int) == Some((p.0, p.1 as int)) && p.1 <= b@.len(),
            None => spec_read_u64(b@, i as int) is None,
        },
{
    if b.len() - i >= 8 {
        let s = slice_subrange(b, i, i + 8);
        Some((u64_from_le_bytes(s), i + 8))
    } else {
        None
    }
}

/// Reads one byte at `i`.
fn read_byte_at(b: &[u8], i: usize) -> (r: Option<(u8, usize)>)
    requires
        i <= b@.len(),
    ensures
        match r {
            Some(p) => spec_read_byte(b@, i as int) == Some((p.0, p.1 as int)) && p.1 <= b@.len(),
            None => spec_read_byte(b@, i as int) is None,
        },
{
    if b.len() - i >= 1 {
        Some((b[i], i + 1))
    } else {
        None
    }
}

/// Reads a string at `i`.
fn read_str_at(b: &[u8], i: usize) -> (r: Option<(String, usize)>)
    requires
        i <= b@.len(),
    ensures
        match r {
            Some(p) => spec_read_str(b@, i as int) == Some((p.0@, p.1 as int)) && p.1 <= b@.len(),
            None => spec_read_str(b@, i as int) is None,
        },
{
    let (n, start) = match read_u64_at(b, i) {
        Some(p) => p,
        None => {
            return None;
        },
    };
    let mut pos = start;
    let mut acc = String::new();
    let mut k: u64 = 0;
    while k < n
        invariant
            k <= n,
            pos <= b@.len(),
            spec_read_u64(b@, i as int) == Some((n, start as int)),
            spec_read_chars(b@, start as int, n as nat) == (match spec_read_chars(
                b@,
                pos as int,
                (n - k) as nat,
            ) {
                Some(p) => Some((acc@ + p.0, p.1)),
                None => None,
            }),
        decreases n - k,
    {
        if b.len() - pos < 4 {
            proof {
                assert(spec_read_chars(b@, pos as int, (n - k) as nat) is None);
                assert(spec_read_chars(b@, start as int, n as nat) is None);
            }
            return None;
        }
        let v = u32_from_le_bytes(slice_subrange(b, pos, pos + 4));
        match char_from_u32(v) {
            Some(c) => {
                let ghost acc_pre = acc@;
                push_char(&mut acc, c);
                proof {
                    char_u32_cast(c, v);
                    let rest = spec_read_chars(b@, pos + 4, (n - k - 1) as nat);
                    if rest is Some {
                        assert(acc_pre + (seq![c] + (rest->0).0) =~= acc@ + (rest->0).0);
                    }
                }
                pos = pos + 4;
                k = k + 1;
            },
            None => {
                proof {
                    assert(spec_read_chars(b@, pos as int, (n - k) as nat) is None);
                    assert(spec_read_chars(b@, start as int, n as nat) is None);
                }
                return None;
            },
        }
    }
    proof {
        assert(spec_read_chars(b@, pos as int, 0) == Some((Seq::<char>::empty(), pos as int)));
        assert(acc@ + Seq::<char>::empty() =~= acc@);
    }
    Some((acc, pos))
}

/// Reads an optional timestamp at `i`.
fn read_opt_i64_at(b: &[u8], i: usize) -> (r: Option<(Option<i64>, usize)>)
    requires
        i <= b@.len(),
    ensures
        match r {
            Some(p) => spec_read_opt_i64(b@, i as int) == Some((p.0, p.1 as int)) && p.1
                <= b@.len(),
            None => spec_read_opt_i64(b@, i as int) is None,
        },
{
    let (tag, j) = match read_byte_at(b, i) {
        Some(p) => p,
        None => {
            return None;
        },
    };
    if tag == 0 {
        Some((None, j))
    } else if tag == 1 {
        match read_u64_at(b, j) {
            Some(q) => Some((Some(q.0 as i64), q.1)),
            None => None,
        }
    } else {
        None
    }
}

/// Reads a timestamp map at `i`, rejecting a repeated name.
fn read_i64_map_at(b: &[u8], i: usize) -> (r: Option<(StrMap<i64>, usize)>)
    requires
        i <= b@.len(),
    ensures
        match r {
            Some(p) => spec_read_i64_map(b@, i as int) == Some((p.0@, p.1 as int)) && p.0.wf()
                && p.1 <= b@.len(),
            None => spec_read_i64_map(b@, i as int) is None || (spec_read_i64_map(b@, i as int)
                matches Some(q) && !distinct_keys(q.0)),
        },
{
    let (n, start) = match read_u64_at(b, i) {
        Some(p) => p,
        None => {
            return None;
        },
    };
    let mut pos = start;
    let mut acc: StrMap<i64> = StrMap::new();
    let mut k: u64 = 0;
    while k < n
        invariant
            k <= n,
            pos <= b@.len(),
            acc.wf(),
            acc@.len() == k,
            spec_read_u64(b@, i as int) == Some((n, start as int)),
            spec_read_i64_items(b@, start as int, n as nat) == (match spec_read_i64_items(
                b@,
                pos as int,
                (n - k) as nat,
            ) {
                Some(p) => Some((acc@ + p.0, p.1)),
                None => None,
            }),
        decreases n - k,
    {
        let (name, j) = match read_str_at(b, pos) {
            Some(p) => p,
            None => {
                proof {
                    assert(spec_read_i64_items(b@, pos as int, (n - k) as nat) is None);
                    assert(spec_read_i64_items(b@, start as int, n as nat) is None);
                }
                return None;
            },
        };
        let (v, j2) = match read_u64_at(b, j) {
            Some(p) => p,
            None => {
                proof {
                    assert(spec_read_i64_items(b@, pos as int, (n - k) as nat) is None);
                    assert(spec_read_i64_items(b@, start as int, n as nat) is None);
                }
                return None;
            },
        };
        if acc.contains(name.as_str()) {
            proof {
                acc.lemma_as_map_contains();
                assert(acc.spec_contains(name@));
                let items = spec_read_i64_items(b@, start as int, n as nat);
                if items is Some {
                    let q = spec_read_i64_items(b@, pos as int, (n - k) as nat);
                    assert(q is Some);
                    let total = (items->0).0;
                    assert(total == acc@ + (q->0).0);
                    assert((q->0).0[0].0 == name@);
                    let w = choose|w: int| 0 <= w < acc@.len() && acc@[w].0 == name@;
                    assert(total[w] == acc@[w]);
                    assert(total[acc@.len() as int] == (q->0).0[0]);
                    assert(!distinct_keys(total));
                }
            }
            return None;
        }
        let ghost acc_pre = acc@;
        proof {
            acc.lemma_as_map_contains();
        }
        acc.set(name.as_str(), v as i64);
        proof {
            assert(acc@ =~= acc_pre.push((name@, v as i64)));
            let rest = spec_read_i64_items(b@, j2 as int, (n - k - 1) as nat);
            if rest is Some {
                assert(acc_pre + (seq![(name@, v as i64)] + (rest->0).0) =~= acc@ + (rest->0).0);
            }
        }
        pos = j2;
        k = k + 1;
    }
    proof {
        assert(spec_read_i64_items(b@, pos as int, 0) == Some((
            Seq::<(Seq<char>, i64)>::empty(),
            pos as int,
        )));
        assert(acc@ + Seq::<(Seq<char>, i64)>::empty() =~= acc@);
    }
    Some((acc, pos))
}

/// Reads a flag map at `i`, rejecting a repeated name.
fn read_bool_map_at(b: &[u8], i: usize) -> (r: Option<(StrMap<bool>, usize)>)
    requires
        i <= b@.len(),
    ensures
        match r {
            Some(p) => spec_read_bool_map(b@, i as int) == Some((p.0@, p.1 as int)) && p.0.wf()
                && p.1 <= b@.len(),
            None => spec_read_bool_map(b@, i as int) is None || (spec_read_bool_map(b@, i as int)
                matches Some(q) && !distinct_keys(q.0)),
        },
{
    let (n, start) = match read_u64_at(b, i) {
        Some(p) => p,
        None => {
            return None;
        },
    };
    let mut pos = start;
    let mut acc: StrMap<bool> = StrMap::new();
    let mut k: u64 = 0;
    while k < n
        invariant
            k <= n,
            pos <= b@.len(),
            acc.wf(),
            acc@.len() == k,
            spec_read_u64(b@, i as int) == Some((n, start as int)),
            spec_read_bool_items(b@, start as int, n as nat) == (match spec_read_bool_items(
                b@,
                pos as int,
                (n - k) as nat,
            ) {
                Some(p) => Some((acc@ + p.0, p.1)),
                None => None,
            }),
        decreases n - k,
    {
        let (name, j) = match read_str_at(b, pos) {
            Some(p) => p,
            None => {
                proof {
                    assert(spec_read_bool_items(b@, pos as int, (n - k) as nat) is None);
                    assert(spec_read_bool_items(b@, start as int, n as nat) is None);
                }
                return None;
            },
        };
        let (flag, j2) = match read_byte_at(b, j) {
            Some(p) => p,
            None => {
                proof {
                    assert(spec_read_bool_items(b@, pos as int, (n - k) as nat) is None);
                    assert(spec_read_bool_items(b@, start as int, n as nat) is None);
                }
                return None;
            },
        };
        if !(flag == 0 || flag == 1) {
            proof {
                assert(spec_read_bool_items(b@, pos as int, (n - k) as nat) is None);
                assert(spec_read_bool_items(b@, start as int, n as nat) is None);
            }
            return None;
        }
        if acc.contains(name.as_str()) {
            proof {
                acc.lemma_as_map_contains();
                assert(acc.spec_contains(name@));
                let items = spec_read_bool_items(b@, start as int, n as nat);
                if items is Some {
                    let q = spec_read_bool_items(b@, pos as int, (n - k) as nat);
                    assert(q is Some);
                    let total = (items->0).0;
                    assert(total == acc@ + (q->0).0);
                    assert((q->0).0[0].0 == name@);
                    let w = choose|w: int| 0 <= w < acc@.len() && acc@[w].0 == name@;
                    assert(total[w] == acc@[w]);
                    assert(total[acc@.len() as int] == (q->0).0[0]);
                    assert(!distinct_keys(total));
                }
            }
            return None;
        }
        let ghost acc_pre = acc@;
        proof {
            acc.lemma_as_map_contains();
        }
        acc.set(name.as_str(), flag == 1);
        proof {
            assert(acc@ =~= acc_pre.push((name@, flag == 1)));
            let rest = spec_read_bool_items(b@, j2 as int, (n - k - 1) as nat);
            if rest is Some {
                assert(acc_pre + (seq![(name@, flag == 1)] + (rest->0).0) =~= acc@ + (rest->0).0);
            }
        }
        pos = j2;
        k = k + 1;
    }
    proof {
        assert(spec_read_bool_items(b@, pos as int, 0) == Some((
            Seq::<(Seq<char>, bool)>::empty(),
            pos as int,
        )));
        assert(acc@ + Seq::<(Seq<char>, bool)>::empty() =~= acc@);
    }
    Some((acc, pos))
}

/// Decodes a state blob, or reports that the bytes are not one.
pub fn decode_state(b: &[u8]) -> (r: Option<(StrMap<i64>, StrMap<i64>, StrMap<bool>)>)
    ensures
        match r {
            Some(t) => spec_decode_state(b@) == Some((t.0@, t.1@, t.2@)) && t.0.wf() && t.1.wf()
                && t.2.wf(),
            None => spec_decode_state(b@) is None,
        },
{
    let (lu, i) = match read_i64_map_at(b, 0) {
        Some(p) => p,
        None => {
            return None;
        },
    };
    let (ll, j) = match read_i64_map_at(b, i) {
        Some(p) => p,
        None => {
            return None;
        },
    };
    let (il, k) = match read_bool_map_at(b, j) {
        Some(p) => p,
        None => {
            return None;
        },
    };
    if k != b.len() {
        return None;
    }
    Some((lu, ll, il))
}

/// Decodes an unlock response, or reports that the bytes are not one.
pub fn decode_response(b: &[u8]) -> (r: Option<UnlockResponse>)
    ensures
        match r {
            Some(m) => spec_decode_response(b@) == Some(response_model(m)),
            None => spec_decode_response(b@) is None,
        },
{
    let (tag, i) = match read_byte_at(b, 0) {
        Some(p) => p,
        None => {
            return None;
        },
    };
    if tag == 0 {
        let (locked_at, j) = match read_opt_i64_at(b, i) {
            Some(p) => p,
            None => {
                return None;
            },
        };
        if j != b.len() {
            return None;
        }
        Some(UnlockResponse::Success { locked_at })
    } else if tag == 1 {
        let (cause, j) = match read_str_at(b, i) {
            Some(p) => p,
            None => {
                return None;
            },
        };
        let (unlocked_at, j2) = match read_opt_i64_at(b, j) {
            Some(p) => p,
            None => {
                return None;
            },
        };
        if j2 != b.len() {
            return None;
        }
        Some(UnlockResponse::Fail { cause, unlocked_at })
    } else {
        None
    }
}

/// Casting a timestamp through its unsigned carrier preserves it.
proof fn lemma_i64_cast(x: i64)
    ensures
        ((x as u64) as i64) == x,
{
    assert(((x as u64) as i64) == x) by (bit_vector);
}

/// Splits a subrange equal to a concatenation into its two halves.
proof fn lemma_subrange_concat(b: Seq<u8>, i: int, x: Seq<u8>, y: Seq<u8>)
    requires
        0 <= i,
        i + x.len() + y.len() <= b.len(),
        b.subrange(i, i + x.len() + y.len()) == x + y,
    ensures
        b.subrange(i, i + x.len() as int) == x,
        b.subrange(i + x.len() as int, i + x.len() + y.len()) == y,
{
    let whole = b.subrange(i, i + x.len() + y.len());
    assert forall|j: int| 0 <= j < x.len() implies b.subrange(i, i + x.len() as int)[j] == x[j] by {
        assert(whole[j] == b[i + j]);
        assert((x + y)[j] == x[j]);
    }
    assert(b.subrange(i, i + x.len() as int) =~= x);
    assert forall|j: int| 0 <= j < y.len() implies b.subrange(
        i + x.len() as int,
        i + x.len() + y.len(),
    )[j] == y[j] by {
        assert(whole[x.len() + j] == b[i + x.len() + j]);
        assert((x + y)[x.len() + j] == y[j]);
    }
    assert(b.subrange(i + x.len() as int, i + x.len() + y.len()) =~= y);
}

/// Reading where a number was written gives the number back.
proof fn lemma_read_u64_enc(b: Seq<u8>, i: int, x: u64)
    requires
        0 <= i,
        i + 8 <= b.len(),
        b.subrange(i, i + 8) == spec_u64_to_le_bytes(x),
    ensures
        spec_read_u64(b, i) == Some((x, i + 8)),
{
    lemma_auto_spec_u64_to_from_le_bytes();
}

/// Reading where characters were written gives them back.
proof fn lemma_read_chars_enc(b: Seq<u8>, i: int, s: Seq<char>)
    requires
        0 <= i,
        i + spec_encode_chars(s).len() <= b.len(),
        b.subrange(i, i + spec_encode_chars(s).len()) == spec_encode_chars(s),
    ensures
        spec_read_chars(b, i, s.len()) == Some((s, i + spec_encode_chars(s).len())),
    decreases s.len(),
{
    lemma_auto_spec_u32_to_from_le_bytes();
    if s.len() == 0 {
    } else {
        let head = spec_u32_to_le_bytes(s.first() as u32);
        let tail = spec_encode_chars(s.drop_first());
        assert(spec_encode_chars(s) == head + tail);
        lemma_subrange_concat(b, i, head, tail);
        let v = spec_u32_from_le_bytes(b.subrange(i, i + 4));
        assert(v == s.first() as u32);
        char_is_scalar(s.first());
        char_u32_cast(s.first(), v);
        lemma_read_chars_enc(b, i + 4, s.drop_first());
        assert(seq![s.first()] + s.drop_first() =~= s);
    }
}

/// Reading where a string was written gives it back.
proof fn lemma_read_str_enc(b: Seq<u8>, i: int, s: Seq<char>)
    requires
        0 <= i,
        s.len() <= u64::MAX,
        i + spec_encode_str(s).len() <= b.len(),
        b.subrange(i, i + spec_encode_str(s).len()) == spec_encode_str(s),
    ensures
        spec_read_str(b, i) == Some((s, i + spec_encode_str(s).len())),
{
    lemma_auto_spec_u64_to_from_le_bytes();
    let head = spec_u64_to_le_bytes(s.len() as u64);
    let tail = spec_encode_chars(s);
    assert(spec_encode_str(s) == head + tail);
    lemma_subrange_concat(b, i, head, tail);
    lemma_read_u64_enc(b, i, s.len() as u64);
    lemma_read_chars_enc(b, i + 8, s);
}

/// Reading where an optional timestamp was written gives it back.
proof fn lemma_read_opt_enc(b: Seq<u8>, i: int, o: Option<i64>)
    requires
        0 <= i,
        i + spec_encode_opt_i64(o).len() <= b.len(),
        b.subrange(i, i + spec_encode_opt_i64(o).len()) == spec_encode_opt_i64(o),
    ensures
        spec_read_opt_i64(b, i) == Some((o, i + spec_encode_opt_i64(o).len())),
{
    lemma_auto_spec_u64_to_from_le_bytes();
    match o {
        None => {
            assert(b.subrange(i, i + 1)[0] == b[i]);
            assert(b[i] == 0u8);
        },
        Some(v) => {
            let head = seq![1u8];
            let tail = spec_u64_to_le_bytes(v as u64);
            assert(spec_encode_opt_i64(o) == head + tail);
            lemma_subrange_concat(b, i, head, tail);
            assert(b.subrange(i, i + 1)[0] == b[i]);
            assert(b[i] == 1u8);
            lemma_read_u64_enc(b, i + 1, v as u64);
            lemma_i64_cast(v);
        },
    }
}

/// Reading where timestamp pairs were written gives them back.
proof fn lemma_read_i64_items_enc(b: Seq<u8>, i: int, ps: Seq<(Seq<char>, i64)>)
    requires
        0 <= i,
        forall|k: int| 0 <= k < ps.len() ==> (#[trigger] ps[k]).0.len() <= u64::MAX,
        i + spec_encode_i64_items(ps).len() <= b.len(),
        b.subrange(i, i + spec_encode_i64_items(ps).len()) == spec_encode_i64_items(ps),
    ensures
        spec_read_i64_items(b, i, ps.len()) == Some((ps, i + spec_encode_i64_items(ps).len())),
    decreases ps.len(),
{
    if ps.len() == 0 {
    } else {
        let name = ps.first().0;
        let val = ps.first().1;
        let h1 = spec_encode_str(name);
        let h2 = spec_u64_to_le_bytes(val as u64);
        let tail = spec_encode_i64_items(ps.drop_first());
        lemma_auto_spec_u64_to_from_le_bytes();
        assert(spec_encode_i64_items(ps) == h1 + h2 + tail);
        assert(h1 + h2 + tail =~= h1 + (h2 + tail));
        lemma_subrange_concat(b, i, h1, h2 + tail);
        lemma_subrange_concat(b, i + h1.len() as int, h2, tail);
        lemma_read_str_enc(b, i, name);
        lemma_read_u64_enc(b, i + h1.len() as int, val as u64);
        lemma_i64_cast(val);
        assert(forall|k: int|
            0 <= k < ps.drop_first().len() ==> (#[trigger] ps.drop_first()[k]).0.len()
                <= u64::MAX);
        lemma_read_i64_items_enc(b, i + h1.len() + h2.len() as int, ps.drop_first());
        assert(seq![(name, val)] + ps.drop_first() =~= ps);
    }
}

/// Reading where flag pairs were written gives them back.
proof fn lemma_read_bool_items_enc(b: Seq<u8>, i: int, ps: Seq<(Seq<char>, bool)>)
    requires
        0 <= i,
        forall|k: int| 0 <= k < ps.len() ==> (#[trigger] ps[k]).0.len() <= u64::MAX,
        i + spec_encode_bool_items(ps).len() <= b.len(),
        b.subrange(i, i + spec_encode_bool_items(ps).len()) == spec_encode_bool_items(ps),
    ensures
        spec_read_bool_items(b, i, ps.len()) == Some((ps, i + spec_encode_bool_items(ps).len())),
    decreases ps.len(),
{
    if ps.len() == 0 {
    } else {
        let name = ps.first().0;
        let val = ps.first().1;
        let h1 = spec_encode_str(name);
        let h2 = seq![if val { 1u8 } else { 0u8 }];
        let tail = spec_encode_bool_items(ps.drop_first());
        assert(spec_encode_bool_items(ps) == h1 + h2 + tail);
        assert(h1 + h2 + tail =~= h1 + (h2 + tail));
        lemma_subrange_concat(b, i, h1, h2 + tail);
        lemma_subrange_concat(b, i + h1.len() as int, h2, tail);
        lemma_read_str_enc(b, i, name);
        assert(b.subrange(i + h1.len() as int, i + h1.len() + 1)[0] == b[i + h1.len()]);
        assert(b[i + h1.len()] == (if val { 1u8 } else { 0u8 }));
        assert(forall|k: int|
            0 <= k < ps.drop_first().len() ==> (#[trigger] ps.drop_first()[k]).0.len()
                <= u64::MAX);
        lemma_read_bool_items_enc(b, i + h1.len() as int + 1, ps.drop_first());
        assert(seq![(name, val)] + ps.drop_first() =~= ps);
    }
}

/// Decoding a freshly encoded state blob gives the maps back.
pub proof fn lemma_state_codec_round_trip(
    lu: Seq<(Seq<char>, i64)>,
    ll: Seq<(Seq<char>, i64)>,
    il: Seq<(Seq<char>, bool)>,
)
    requires
        distinct_keys(lu),
        distinct_keys(ll),
        distinct_keys(il),
        lu.len() <= u64::MAX,
        ll.len() <= u64::MAX,
        il.len() <= u64::MAX,
        forall|k: int| 0 <= k < lu.len() ==> (#[trigger] lu[k]).0.len() <= u64::MAX,
        forall|k: int| 0 <= k < ll.len() ==> (#[trigger] ll[k]).0.len() <= u64::MAX,
        forall|k: int| 0 <= k < il.len() ==> (#[trigger] il[k]).0.len() <= u64::MAX,
    ensures
        spec_decode_state(spec_encode_state(lu, ll, il)) == Some((lu, ll, il)),
{
    let b = spec_encode_state(lu, ll, il);
    let m1 = spec_encode_i64_map(lu);
    let m2 = spec_encode_i64_map(ll);
    let m3 = spec_encode_bool_map(il);
    lemma_auto_spec_u64_to_from_le_bytes();
    assert(b == m1 + m2 + m3);
    assert(m1 + m2 + m3 =~= m1 + (m2 + m3));
    assert(b.subrange(0, b.len() as int) =~= b);
    lemma_subrange_concat(b, 0, m1, m2 + m3);
    lemma_subrange_concat(b, m1.len() as int, m2, m3);
    // first map
    let c1 = spec_u64_to_le_bytes(lu.len() as u64);
    let i1 = spec_encode_i64_items(lu);
    assert(m1 == c1 + i1);
    lemma_subrange_concat(b, 0, c1, i1);
    lemma_read_u64_enc(b, 0, lu.len() as u64);
    lemma_read_i64_items_enc(b, 8, lu);
    assert(spec_read_i64_map(b, 0) == Some((lu, m1.len() as int)));
    // second map
    let c2 = spec_u64_to_le_bytes(ll.len() as u64);
    let i2 = spec_encode_i64_items(ll);
    assert(m2 == c2 + i2);
    lemma_subrange_concat(b, m1.len() as int, c2, i2);
    lemma_read_u64_enc(b, m1.len() as int, ll.len() as u64);
    lemma_read_i64_items_enc(b, m1.len() as int + 8, ll);
    assert(spec_read_i64_map(b, m1.len() as int) == Some((ll, m1.len() as int + m2.len())));
    // third map
    let c3 = spec_u64_to_le_bytes(il.len() as u64);
    let i3 = spec_encode_bool_items(il);
    assert(m3 == c3 + i3);
    lemma_subrange_concat(b, m1.len() as int + m2.len(), c3, i3);
    lemma_read_u64_enc(b, m1.len() as int + m2.len(), il.len() as u64);
    lemma_read_bool_items_enc(b, m1.len() as int + m2.len() + 8, il);
    assert(spec_read_bool_map(b, m1.len() as int + m2.len()) == Some((il, b.len() as int)));
}

/// Decoding a freshly encoded response gives the response back.
pub proof fn lemma_response_codec_round_trip(m: ResponseModel)
    requires
        m matches ResponseModel::Fail { cause, .. } ==> cause.len() <= u64::MAX,
    ensures
        spec_decode_response(spec_encode_response(m)) == Some(m),
{
    let b = spec_encode_response(m);
    match m {
        ResponseModel::Success { locked_at } => {
            let h = seq![0u8];
            let t = spec_encode_opt_i64(locked_at);
            assert(b == h + t);
            assert(b.subrange(0, b.len() as int) =~= b);
            lemma_subrange_concat(b, 0, h, t);
            assert(b.subrange(0, 1)[0] == b[0]);
            assert(b[0] == 0u8);
            lemma_read_opt_enc(b, 1, locked_at);
        },
        ResponseModel::Fail { cause, unlocked_at } => {
            let h = seq![1u8];
            let t1 = spec_encode_str(cause);
            let t2 = spec_encode_opt_i64(unlocked_at);
            assert(b == h + t1 + t2);
            assert(h + t1 + t2 =~= h + (t1 + t2));
            assert(b.subrange(0, b.len() as int) =~= b);
            lemma_subrange_concat(b, 0, h, t1 + t2);
            lemma_subrange_concat(b, 1, t1, t2);
            assert(b.subrange(0, 1)[0] == b[0]);
            assert(b[0] == 1u8);
            lemma_read_str_enc(b, 1, cause);
            lemma_read_opt_enc(b, 1 + t1.len() as int, unlocked_at);
        },
    }
}

} // verus!
