//! The byte layout of a stored poll: little-endian integers, `u32` length
//! prefixes, UTF-8 text, and vote entries in ascending voter order.
use vstd::prelude::*;
use vstd::utf8::{encode_utf8, valid_utf8};
use crate::identity::{Identity, IDENTITY_LEN};
use crate::error::PollError;
use crate::poll::{Poll, VoteEntry, same_poll, vote_outcome};

verus! {

/// Four bytes of `v`, least significant first.
pub open spec fn u32_le(v: u32) -> Seq<u8> {
    seq![
        (v & 0xff) as u8,
        ((v >> 8u32) & 0xff) as u8,
        ((v >> 16u32) & 0xff) as u8,
        ((v >> 24u32) & 0xff) as u8,
    ]
}

/// Eight bytes of `v`, least significant first.
pub open spec fn u64_le(v: u64) -> Seq<u8> {
    seq![
        (v & 0xff) as u8,
        ((v >> 8u64) & 0xff) as u8,
        ((v >> 16u64) & 0xff) as u8,
        ((v >> 24u64) & 0xff) as u8,
        ((v >> 32u64) & 0xff) as u8,
        ((v >> 40u64) & 0xff) as u8,
        ((v >> 48u64) & 0xff) as u8,
        ((v >> 56u64) & 0xff) as u8,
    ]
}

/// A `u32` length prefix.
pub open spec fn len_prefix(n: int) -> Seq<u8> {
    u32_le(n as u32)
}

/// Text as its UTF-8 byte length followed by those bytes.
pub open spec fn text_bytes(s: Seq<char>) -> Seq<u8> {
    len_prefix(encode_utf8(s).len() as int) + encode_utf8(s)
}

/// The encodings of `items` one after another.
pub open spec fn flat<T>(items: Seq<T>, f: spec_fn(T) -> Seq<u8>) -> Seq<u8>
    decreases items.len(),
{
    if items.len() == 0 {
        Seq::empty()
    } else {
        flat(items.drop_last(), f) + f(items.last())
    }
}

/// Encoding of one option text.
pub open spec fn text_item(s: String) -> Seq<u8> {
    text_bytes(s@)
}

/// Encoding of one vote entry: the voter's bytes and the option byte.
pub open spec fn vote_item(e: VoteEntry) -> Seq<u8> {
    e.0@ + seq![e.1]
}

/// Encoding of one identity.
pub open spec fn id_item(id: Identity) -> Seq<u8> {
    id@
}

/// The texts one after another, without a count.
pub open spec fn texts_body(ss: Seq<String>) -> Seq<u8> {
    flat(ss, |s: String| text_item(s))
}

/// Each vote as the voter's bytes and the option byte, without a count.
pub open spec fn votes_body(vs: Seq<VoteEntry>) -> Seq<u8> {
    flat(vs, |e: VoteEntry| vote_item(e))
}

/// The identities one after another, without a count.
pub open spec fn ids_body(ids: Seq<Identity>) -> Seq<u8> {
    flat(ids, |i: Identity| id_item(i))
}

/// Concatenation splits at any item boundary.
pub proof fn lemma_flat_split<T>(items: Seq<T>, f: spec_fn(T) -> Seq<u8>, i: int)
    requires
        0 <= i <= items.len(),
    ensures
        flat(items, f) == flat(items.take(i), f) + flat(items.skip(i), f),
    decreases items.len(),
{
    if i == items.len() {
        assert(items.take(i) =~= items);
        assert(items.skip(i) =~= Seq::<T>::empty());
        assert(flat(items, f) =~= flat(items, f) + Seq::<u8>::empty());
    } else {
        let d = items.drop_last();
        lemma_flat_split(d, f, i);
        assert(d.take(i) =~= items.take(i));
        assert(items.skip(i).drop_last() =~= d.skip(i));
        assert(items.skip(i).last() == items.last());
        assert(flat(items, f) =~= flat(items.take(i), f) + flat(items.skip(i), f));
    }
}

/// One more item adds its encoding at the end.
pub proof fn lemma_flat_take_next<T>(items: Seq<T>, f: spec_fn(T) -> Seq<u8>, i: int)
    requires
        0 <= i < items.len(),
    ensures
        flat(items.take(i + 1), f) == flat(items.take(i), f) + f(items[i]),
{
    assert(items.take(i + 1).drop_last() =~= items.take(i));
}

/// The item at `i` is encoded right after the first `i` items.
pub proof fn lemma_flat_item_at<T>(items: Seq<T>, f: spec_fn(T) -> Seq<u8>, i: int)
    requires
        0 <= i < items.len(),
    ensures
        flat(items, f).subrange(flat(items.take(i), f).len() as int, flat(items.take(i + 1), f).len() as int) == f(items[i]),
        flat(items.take(i + 1), f).len() <= flat(items, f).len(),
{
    lemma_flat_split(items, f, i + 1);
    lemma_flat_take_next(items, f, i);
    let a = flat(items.take(i), f);
    let whole = flat(items, f);
    assert(whole.subrange(a.len() as int, (a.len() + f(items[i]).len()) as int) =~= f(items[i]));
}

/// A text fits the layout: its byte length fits a `u32` prefix.
pub open spec fn text_fits(s: Seq<char>) -> bool {
    encode_utf8(s).len() <= u32::MAX
}

/// Every length in the poll fits its `u32` prefix.
pub open spec fn encodable(p: Poll) -> bool {
    &&& text_fits(p.question@)
    &&& p.options@.len() <= u32::MAX
    &&& forall|i: int| 0 <= i < p.options@.len() ==> text_fits((#[trigger] p.options@[i])@)
    &&& p.votes@.len() <= u32::MAX
    &&& p.voter_addresses@.len() <= u32::MAX
}

/// The stored form of a poll: creator, question, options, votes in voter
/// order, total, and voters in voting order.
pub open spec fn poll_bytes(p: Poll) -> Seq<u8> {
    p.creator@ + text_bytes(p.question@) + len_prefix(p.options@.len() as int) + texts_body(p.options@)
        + len_prefix(p.votes@.len() as int) + votes_body(p.votes@) + u64_le(p.total_votes)
        + len_prefix(p.voter_addresses@.len() as int) + ids_body(p.voter_addresses@)
}

/// Relies on `String::from_utf8`: it succeeds exactly on well-formed UTF-8,
/// and the string it returns holds those bytes.
#[verifier::external_body]
fn string_from_utf8(bytes: Vec<u8>) -> (r: Option<String>)
    ensures
        r is Some <==> valid_utf8(bytes@),
        r matches Some(s) ==> encode_utf8(s@) == bytes@,
{
    String::from_utf8(bytes).ok()
}

/// Appends `v` in four little-endian bytes.
pub fn push_u32(out: &mut Vec<u8>, v: u32)
    ensures
        final(out)@ == old(out)@ + u32_le(v),
{
    out.push((v & 0xff) as u8);
    out.push(((v >> 8u32) & 0xff) as u8);
    out.push(((v >> 16u32) & 0xff) as u8);
    out.push(((v >> 24u32) & 0xff) as u8);
    assert(final(out)@ =~= old(out)@ + u32_le(v));
}

/// Appends `v` in eight little-endian bytes.
pub fn push_u64(out: &mut Vec<u8>, v: u64)
    ensures
        final(out)@ == old(out)@ + u64_le(v),
{
    out.push((v & 0xff) as u8);
    out.push(((v >> 8u64) & 0xff) as u8);
    out.push(((v >> 16u64) & 0xff) as u8);
    out.push(((v >> 24u64) & 0xff) as u8);
    out.push(((v >> 32u64) & 0xff) as u8);
    out.push(((v >> 40u64) & 0xff) as u8);
    out.push(((v >> 48u64) & 0xff) as u8);
    out.push(((v >> 56u64) & 0xff) as u8);
    assert(final(out)@ =~= old(out)@ + u64_le(v));
}

/// Appends the bytes of `b`.
pub fn push_bytes(out: &mut Vec<u8>, b: &[u8])
    ensures
        final(out)@ == old(out)@ + b@,
{
    let ghost start = out@;
    let mut i: usize = 0;
    while i < b.len()
        invariant
            0 <= i <= b@.len(),
            out@ == start + b@.take(i as int),
        decreases b@.len() - i,
    {
        out.push(b[i]);
        i = i + 1;
        assert(out@ =~= start + b@.take(i as int));
    }
    assert(b@.take(i as int) =~= b@);
}

/// Whether the text's byte length fits a `u32` prefix.
pub fn fits_prefix(s: &String) -> (r: bool)
    ensures
        r == text_fits(s@),
{
    let b = s.as_str().as_bytes();
    b.len() <= 0xffff_ffffusize
}

/// Appends `s` with its length prefix.
pub fn push_text(out: &mut Vec<u8>, s: &String)
    requires
        text_fits(s@),
    ensures
        final(out)@ == old(out)@ + text_bytes(s@),
{
    let b = s.as_str().as_bytes();
    push_u32(out, b.len() as u32);
    push_bytes(out, b);
    assert(final(out)@ =~= old(out)@ + text_bytes(s@));
}

/// Whether every length in the poll fits its prefix.
pub fn is_encodable(p: &Poll) -> (r: bool)
    ensures
        r == encodable(*p),
{
    if !fits_prefix(&p.question) || p.options.len() > 0xffff_ffffusize || p.votes.len() > 0xffff_ffffusize
        || p.voter_addresses.len() > 0xffff_ffffusize {
        return false;
    }
    let mut i: usize = 0;
    while i < p.options.len()
        invariant
            0 <= i <= p.options@.len(),
            forall|k: int| 0 <= k < i ==> text_fits((#[trigger] p.options@[k])@),
        decreases p.options@.len() - i,
    {
        if !fits_prefix(&p.options[i]) {
            return false;
        }
        i = i + 1;
    }
    true
}

/// The stored form of `p`, or `None` when a length does not fit its prefix.
pub fn encode_poll(p: &Poll) -> (r: Option<Vec<u8>>)
    ensures
        r is Some <==> encodable(*p),
        r matches Some(b) ==> b@ == poll_bytes(*p),
{
    if !is_encodable(p) {
        return None;
    }
    let mut out: Vec<u8> = Vec::new();
    push_bytes(&mut out, p.creator.bytes.as_slice());
    push_text(&mut out, &p.question);
    push_u32(&mut out, p.options.len() as u32);
    let ghost s1 = out@;
    let mut i: usize = 0;
    while i < p.options.len()
        invariant
            encodable(*p),
            0 <= i <= p.options@.len(),
            out@ == s1 + texts_body(p.options@.take(i as int)),
        decreases p.options@.len() - i,
    {
        push_text(&mut out, &p.options[i]);
        proof {
            let t = p.options@.take(i as int + 1);
            assert(t.drop_last() =~= p.options@.take(i as int));
        }
        i = i + 1;
    }
    assert(p.options@.take(i as int) =~= p.options@);
    push_u32(&mut out, p.votes.len() as u32);
    let ghost s2 = out@;
    let mut j: usize = 0;
    while j < p.votes.len()
        invariant
            0 <= j <= p.votes@.len(),
            out@ == s2 + votes_body(p.votes@.take(j as int)),
        decreases p.votes@.len() - j,
    {
        push_bytes(&mut out, p.votes[j].0.bytes.as_slice());
        out.push(p.votes[j].1);
        proof {
            let t = p.votes@.take(j as int + 1);
            assert(t.drop_last() =~= p.votes@.take(j as int));
            assert(out@ =~= s2 + votes_body(t));
        }
        j = j + 1;
    }
    assert(p.votes@.take(j as int) =~= p.votes@);
    push_u64(&mut out, p.total_votes);
    push_u32(&mut out, p.voter_addresses.len() as u32);
    let ghost s3 = out@;
    let mut k: usize = 0;
    while k < p.voter_addresses.len()
        invariant
            0 <= k <= p.voter_addresses@.len(),
            out@ == s3 + ids_body(p.voter_addresses@.take(k as int)),
        decreases p.voter_addresses@.len() - k,
    {
        push_bytes(&mut out, p.voter_addresses[k].bytes.as_slice());
        proof {
            let t = p.voter_addresses@.take(k as int + 1);
            assert(t.drop_last() =~= p.voter_addresses@.take(k as int));
            assert(out@ =~= s3 + ids_body(t));
        }
        k = k + 1;
    }
    assert(p.voter_addresses@.take(k as int) =~= p.voter_addresses@);
    assert(out@ =~= poll_bytes(*p));
    Some(out)
}

proof fn lemma_u32_from_bytes(b0: u32, b1: u32, b2: u32, b3: u32, v: u32)
    by (bit_vector)
    requires
        b0 < 256,
        b1 < 256,
        b2 < 256,
        b3 < 256,
        v == b0 | (b1 << 8u32) | (b2 << 16u32) | (b3 << 24u32),
    ensures
        v & 0xff == b0,
        (v >> 8u32) & 0xff == b1,
        (v >> 16u32) & 0xff == b2,
        (v >> 24u32) & 0xff == b3,
{
}

proof fn lemma_u64_from_bytes(
    b0: u64,
    b1: u64,
    b2: u64,
    b3: u64,
    b4: u64,
    b5: u64,
    b6: u64,
    b7: u64,
    v: u64,
)
    by (bit_vector)
    requires
        b0 < 256,
        b1 < 256,
        b2 < 256,
        b3 < 256,
        b4 < 256,
        b5 < 256,
        b6 < 256,
        b7 < 256,
        v == b0 | (b1 << 8u64) | (b2 << 16u64) | (b3 << 24u64) | (b4 << 32u64) | (b5 << 40u64) | (b6
            << 48u64) | (b7 << 56u64),
    ensures
        v & 0xff == b0,
        (v >> 8u64) & 0xff == b1,
        (v >> 16u64) & 0xff == b2,
        (v >> 24u64) & 0xff == b3,
        (v >> 32u64) & 0xff == b4,
        (v >> 40u64) & 0xff == b5,
        (v >> 48u64) & 0xff == b6,
        (v >> 56u64) & 0xff == b7,
{
}

proof fn lemma_low_bytes_u32(v: u32)
    by (bit_vector)
    ensures
        v & 0xff < 256,
        (v >> 8u32) & 0xff < 256,
        (v >> 16u32) & 0xff < 256,
        (v >> 24u32) & 0xff < 256,
{
}

proof fn lemma_same_bytes_u32(v: u32, w: u32)
    by (bit_vector)
    requires
        v & 0xff == w & 0xff,
        (v >> 8u32) & 0xff == (w >> 8u32) & 0xff,
        (v >> 16u32) & 0xff == (w >> 16u32) & 0xff,
        (v >> 24u32) & 0xff == (w >> 24u32) & 0xff,
    ensures
        v == w,
{
}

/// Different values have different four-byte forms.
pub proof fn lemma_u32_le_injective(v: u32, w: u32)
    requires
        u32_le(v) == u32_le(w),
    ensures
        v == w,
{
    lemma_low_bytes_u32(v);
    lemma_low_bytes_u32(w);
    assert(u32_le(v)[0] == u32_le(w)[0]);
    assert(u32_le(v)[1] == u32_le(w)[1]);
    assert(u32_le(v)[2] == u32_le(w)[2]);
    assert(u32_le(v)[3] == u32_le(w)[3]);
    lemma_same_bytes_u32(v, w);
}

proof fn lemma_low_bytes_u64(v: u64)
    by (bit_vector)
    ensures
        v & 0xff < 256,
        (v >> 8u64) & 0xff < 256,
        (v >> 16u64) & 0xff < 256,
        (v >> 24u64) & 0xff < 256,
        (v >> 32u64) & 0xff < 256,
        (v >> 40u64) & 0xff < 256,
        (v >> 48u64) & 0xff < 256,
        (v >> 56u64) & 0xff < 256,
{
}

proof fn lemma_same_bytes_u64(v: u64, w: u64)
    by (bit_vector)
    requires
        v & 0xff == w & 0xff,
        (v >> 8u64) & 0xff == (w >> 8u64) & 0xff,
        (v >> 16u64) & 0xff == (w >> 16u64) & 0xff,
        (v >> 24u64) & 0xff == (w >> 24u64) & 0xff,
        (v >> 32u64) & 0xff == (w >> 32u64) & 0xff,
        (v >> 40u64) & 0xff == (w >> 40u64) & 0xff,
        (v >> 48u64) & 0xff == (w >> 48u64) & 0xff,
        (v >> 56u64) & 0xff == (w >> 56u64) & 0xff,
    ensures
        v == w,
{
}

/// Different values have different eight-byte forms.
pub proof fn lemma_u64_le_injective(v: u64, w: u64)
    requires
        u64_le(v) == u64_le(w),
    ensures
        v == w,
{
    lemma_low_bytes_u64(v);
    lemma_low_bytes_u64(w);
    assert(u64_le(v)[0] == u64_le(w)[0]);
    assert(u64_le(v)[1] == u64_le(w)[1]);
    assert(u64_le(v)[2] == u64_le(w)[2]);
    assert(u64_le(v)[3] == u64_le(w)[3]);
    assert(u64_le(v)[4] == u64_le(w)[4]);
    assert(u64_le(v)[5] == u64_le(w)[5]);
    assert(u64_le(v)[6] == u64_le(w)[6]);
    assert(u64_le(v)[7] == u64_le(w)[7]);
    lemma_same_bytes_u64(v, w);
}

/// Identities with the same bytes are the same identity.
pub proof fn lemma_identity_from_view(a: Identity, c: Identity)
    requires
        a@ == c@,
    ensures
        a == c,
{
    broadcast use vstd::array::group_array_axioms;

    assert(a.bytes =~= c.bytes);
}

/// `b` holds the encoding of text `s` at `pos`.
pub open spec fn text_at(b: Seq<u8>, pos: int, s: Seq<char>) -> bool {
    &&& text_fits(s)
    &&& 0 <= pos
    &&& pos + text_bytes(s).len() <= b.len()
    &&& b.subrange(pos, pos + text_bytes(s).len()) == text_bytes(s)
}

proof fn lemma_text_at_parts(b: Seq<u8>, pos: int, s: Seq<char>)
    requires
        text_at(b, pos, s),
    ensures
        b.subrange(pos, pos + 4) == u32_le(encode_utf8(s).len() as u32),
        b.subrange(pos + 4, pos + 4 + encode_utf8(s).len()) == encode_utf8(s),
        text_bytes(s).len() == 4 + encode_utf8(s).len(),
{
    let t = text_bytes(s);
    assert(b.subrange(pos, pos + 4) =~= t.subrange(0, 4));
    assert(t.subrange(0, 4) =~= u32_le(encode_utf8(s).len() as u32));
    assert(b.subrange(pos + 4, pos + 4 + encode_utf8(s).len()) =~= t.subrange(4, t.len() as int));
    assert(t.subrange(4, t.len() as int) =~= encode_utf8(s));
}

/// Reads a little-endian `u32` at `pos`; `None` when fewer than four bytes remain.
pub fn read_u32(b: &[u8], pos: usize) -> (r: Option<(u32, usize)>)
    requires
        pos <= b@.len(),
    ensures
        r is None <==> pos + 4 > b@.len(),
        r matches Some((v, q)) ==> q == pos + 4 && b@.subrange(pos as int, q as int) == u32_le(v),
{
    if b.len() - pos < 4 {
        return None;
    }
    let b0 = b[pos] as u32;
    let b1 = b[pos + 1] as u32;
    let b2 = b[pos + 2] as u32;
    let b3 = b[pos + 3] as u32;
    let v = b0 | (b1 << 8u32) | (b2 << 16u32) | (b3 << 24u32);
    proof {
        lemma_u32_from_bytes(b0, b1, b2, b3, v);
        assert(b@.subrange(pos as int, pos + 4) =~= u32_le(v));
    }
    Some((v, pos + 4))
}

/// Reads a little-endian `u64` at `pos`; `None` when fewer than eight bytes remain.
pub fn read_u64(b: &[u8], pos: usize) -> (r: Option<(u64, usize)>)
    requires
        pos <= b@.len(),
    ensures
        r is None <==> pos + 8 > b@.len(),
        r matches Some((v, q)) ==> q == pos + 8 && b@.subrange(pos as int, q as int) == u64_le(v),
{
    if b.len() - pos < 8 {
        return None;
    }
    let b0 = b[pos] as u64;
    let b1 = b[pos + 1] as u64;
    let b2 = b[pos + 2] as u64;
    let b3 = b[pos + 3] as u64;
    let b4 = b[pos + 4] as u64;
    let b5 = b[pos + 5] as u64;
    let b6 = b[pos + 6] as u64;
    let b7 = b[pos + 7] as u64;
    let v = b0 | (b1 << 8u64) | (b2 << 16u64) | (b3 << 24u64) | (b4 << 32u64) | (b5 << 40u64) | (b6
        << 48u64) | (b7 << 56u64);
    proof {
        lemma_u64_from_bytes(b0, b1, b2, b3, b4, b5, b6, b7, v);
        assert(b@.subrange(pos as int, pos + 8) =~= u64_le(v));
    }
    Some((v, pos + 8))
}

/// Reads an identity at `pos`; `None` when fewer than 32 bytes remain.
pub fn read_identity(b: &[u8], pos: usize) -> (r: Option<(Identity, usize)>)
    requires
        pos <= b@.len(),
    ensures
        r is None <==> pos + IDENTITY_LEN > b@.len(),
        r matches Some((id, q)) ==> q == pos + IDENTITY_LEN && b@.subrange(pos as int, q as int) == id@,
{
    if b.len() - pos < IDENTITY_LEN {
        return None;
    }
    let blen = b.len();
    let mut a: [u8; 32] = [0u8; 32];
    let mut i: usize = 0;
    while i < IDENTITY_LEN
        invariant
            blen == b@.len(),
            pos + IDENTITY_LEN <= b@.len(),
            0 <= i <= IDENTITY_LEN,
            a@.len() == IDENTITY_LEN,
            forall|k: int| 0 <= k < i ==> a@[k] == b@[pos + k],
        decreases IDENTITY_LEN - i,
    {
        a[i] = b[pos + i];
        i = i + 1;
    }
    let id = Identity::new(a);
    assert(b@.subrange(pos as int, pos + IDENTITY_LEN) =~= id@);
    Some((id, pos + IDENTITY_LEN))
}

/// Reads a length-prefixed UTF-8 text at `pos`.
pub fn read_text(b: &[u8], pos: usize) -> (r: Option<(String, usize)>)
    requires
        pos <= b@.len(),
    ensures
        r matches Some((s, q)) ==> pos <= q <= b@.len() && b@.subrange(pos as int, q as int) == text_bytes(s@)
            && text_fits(s@),
        forall|s: Seq<char>| #[trigger] text_at(b@, pos as int, s) ==> (r matches Some((t, q)) && t@ == s && q == pos
            + text_bytes(s).len()),
{
    let (n, start) = match read_u32(b, pos) {
        Some(x) => x,
        None => return None,
    };
    let len = n as usize;
    proof {
        assert forall|s: Seq<char>| #[trigger] text_at(b@, pos as int, s) implies encode_utf8(s).len() == len by {
            lemma_text_at_parts(b@, pos as int, s);
            lemma_u32_le_injective(n, encode_utf8(s).len() as u32);
        }
    }
    if b.len() - start < len {
        proof {
            assert forall|s: Seq<char>| #[trigger] text_at(b@, pos as int, s) implies false by {
                lemma_text_at_parts(b@, pos as int, s);
            }
        }
        return None;
    }
    let blen = b.len();
    let mut bytes: Vec<u8> = Vec::new();
    let mut i: usize = 0;
    while i < len
        invariant
            blen == b@.len(),
            start + len <= b@.len(),
            0 <= i <= len,
            bytes@ == b@.subrange(start as int, start + i),
        decreases len - i,
    {
        bytes.push(b[start + i]);
        i = i + 1;
        assert(bytes@ =~= b@.subrange(start as int, start + i));
    }
    let ghost raw = bytes@;
    let s = match string_from_utf8(bytes) {
        Some(s) => s,
        None => {
            proof {
                assert forall|s: Seq<char>| #[trigger] text_at(b@, pos as int, s) implies false by {
                    lemma_text_at_parts(b@, pos as int, s);
                    vstd::utf8::encode_utf8_valid_utf8(s);
                }
            }
            return None;
        },
    };
    let q = start + len;
    proof {
        assert(b@.subrange(pos as int, q as int) =~= b@.subrange(pos as int, start as int) + b@.subrange(start as int, q as int));
        assert forall|t: Seq<char>| #[trigger] text_at(b@, pos as int, t) implies s@ == t by {
            lemma_text_at_parts(b@, pos as int, t);
            vstd::utf8::encode_utf8_decode_utf8(t);
            vstd::utf8::encode_utf8_decode_utf8(s@);
        }
    }
    Some((s, q))
}

/// `b` holds, at `pos`, the count of `items` followed by their encodings.
pub open spec fn list_at<T>(b: Seq<u8>, pos: int, items: Seq<T>, f: spec_fn(T) -> Seq<u8>) -> bool {
    &&& 0 <= pos
    &&& items.len() <= u32::MAX
    &&& pos + 4 + flat(items, f).len() <= b.len()
    &&& b.subrange(pos, pos + 4) == u32_le(items.len() as u32)
    &&& b.subrange(pos + 4, pos + 4 + flat(items, f).len()) == flat(items, f)
}

proof fn lemma_list_item_at<T>(b: Seq<u8>, start: int, items: Seq<T>, f: spec_fn(T) -> Seq<u8>, i: int)
    requires
        0 <= start,
        start + flat(items, f).len() <= b.len(),
        b.subrange(start, start + flat(items, f).len()) == flat(items, f),
        0 <= i < items.len(),
    ensures
        flat(items.take(i + 1), f).len() == flat(items.take(i), f).len() + f(items[i]).len(),
        start + flat(items.take(i + 1), f).len() <= b.len(),
        b.subrange(start + flat(items.take(i), f).len(), start + flat(items.take(i), f).len() + f(items[i]).len())
            == f(items[i]),
{
    lemma_flat_item_at(items, f, i);
    lemma_flat_take_next(items, f, i);
    let a = flat(items.take(i), f).len() as int;
    let c = a + f(items[i]).len();
    let whole = flat(items, f);
    assert(b.subrange(start + a, start + c) =~= whole.subrange(a, c));
}

proof fn lemma_list_count<T>(b: Seq<u8>, pos: int, items: Seq<T>, f: spec_fn(T) -> Seq<u8>, n: u32)
    requires
        list_at(b, pos, items, f),
        b.subrange(pos, pos + 4) == u32_le(n),
    ensures
        n == items.len(),
{
    lemma_u32_le_injective(n, items.len() as u32);
}

/// `b` holds, at `pos`, a counted list of texts that each fit their prefix.
pub open spec fn texts_at(b: Seq<u8>, pos: int, ss: Seq<String>) -> bool {
    &&& list_at(b, pos, ss, |s: String| text_item(s))
    &&& forall|i: int| 0 <= i < ss.len() ==> text_fits((#[trigger] ss[i])@)
}

/// Reads a counted list of texts at `pos`.
pub fn read_texts(b: &[u8], pos: usize) -> (r: Option<(Vec<String>, usize)>)
    requires
        pos <= b@.len(),
    ensures
        r matches Some((ss, q)) ==> pos <= q <= b@.len() && ss@.len() <= u32::MAX
            && b@.subrange(pos as int, q as int) == len_prefix(ss@.len() as int) + texts_body(ss@)
            && forall|i: int| 0 <= i < ss@.len() ==> text_fits((#[trigger] ss@[i])@),
        forall|ss: Seq<String>| #[trigger] texts_at(b@, pos as int, ss) ==> (r matches Some((out, q)) && out@.len()
            == ss.len() && (forall|k: int| 0 <= k < ss.len() ==> (#[trigger] out@[k])@ == ss[k]@) && q == pos + 4
            + texts_body(ss).len()),
{
    let (n, start) = match read_u32(b, pos) {
        Some(x) => x,
        None => return None,
    };
    proof {
        assert forall|ss: Seq<String>| #[trigger] texts_at(b@, pos as int, ss) implies n == ss.len() && texts_body(
            ss.take(0),
        ).len() == 0 by {
            lemma_list_count(b@, pos as int, ss, |s: String| text_item(s), n);
            assert(ss.take(0) =~= Seq::<String>::empty());
        }
    }
    let mut out: Vec<String> = Vec::new();
    let mut cur = start;
    let mut i: u32 = 0;
    while i < n
        invariant
            pos + 4 == start <= cur <= b@.len(),
            b@.subrange(pos as int, start as int) == u32_le(n),
            out@.len() == i <= n,
            b@.subrange(start as int, cur as int) == texts_body(out@),
            forall|k: int| 0 <= k < out@.len() ==> text_fits((#[trigger] out@[k])@),
            forall|ss: Seq<String>| #[trigger] texts_at(b@, pos as int, ss) ==> n == ss.len() && cur == start
                + texts_body(ss.take(i as int)).len() && (forall|k: int| 0 <= k < i ==> (#[trigger] out@[k])@ == ss[k]@),
        decreases n - i,
    {
        proof {
            assert forall|ss: Seq<String>| #[trigger] texts_at(b@, pos as int, ss) implies text_at(b@, cur as int, ss[i as int]@) by {
                lemma_list_count(b@, pos as int, ss, |s: String| text_item(s), n);
                lemma_list_item_at(b@, start as int, ss, |s: String| text_item(s), i as int);
            }
        }
        let (s, next) = match read_text(b, cur) {
            Some(x) => x,
            None => {
                proof {
                    assert forall|ss: Seq<String>| #[trigger] texts_at(b@, pos as int, ss) implies false by {
                        assert(text_at(b@, cur as int, ss[i as int]@));
                    }
                }
                return None;
            },
        };
        let ghost before = out@;
        out.push(s);
        proof {
            assert(out@.drop_last() =~= before);
            assert(b@.subrange(start as int, next as int) =~= b@.subrange(start as int, cur as int) + b@.subrange(cur as int, next as int));
            assert forall|ss: Seq<String>| #[trigger] texts_at(b@, pos as int, ss) implies next == start + texts_body(ss.take(i + 1)).len()
                && (forall|k: int| 0 <= k < i + 1 ==> (#[trigger] out@[k])@ == ss[k]@) by {
                assert(text_at(b@, cur as int, ss[i as int]@));
                lemma_list_item_at(b@, start as int, ss, |s: String| text_item(s), i as int);
                assert forall|k: int| 0 <= k < i + 1 implies (#[trigger] out@[k])@ == ss[k]@ by {
                    if k < i {
                        assert(out@[k] == before[k]);
                    }
                }
            }
        }
        cur = next;
        i = i + 1;
    }
    proof {
        assert(b@.subrange(pos as int, cur as int) =~= b@.subrange(pos as int, start as int) + b@.subrange(start as int, cur as int));
        assert forall|ss: Seq<String>| #[trigger] texts_at(b@, pos as int, ss) implies cur == pos + 4 + texts_body(ss).len() by {
            assert(ss.take(n as int) =~= ss);
        }
    }
    Some((out, cur))
}

/// `b` holds, at `pos`, a counted list of vote entries.
pub open spec fn votes_at(b: Seq<u8>, pos: int, vs: Seq<VoteEntry>) -> bool {
    list_at(b, pos, vs, |e: VoteEntry| vote_item(e))
}

/// `b` holds, at `pos`, a counted list of identities.
pub open spec fn ids_at(b: Seq<u8>, pos: int, ids: Seq<Identity>) -> bool {
    list_at(b, pos, ids, |i: Identity| id_item(i))
}

/// Reads a counted list of vote entries at `pos`.
pub fn read_votes(b: &[u8], pos: usize) -> (r: Option<(Vec<VoteEntry>, usize)>)
    requires
        pos <= b@.len(),
    ensures
        r matches Some((vs, q)) ==> pos <= q <= b@.len() && vs@.len() <= u32::MAX
            && b@.subrange(pos as int, q as int) == len_prefix(vs@.len() as int) + votes_body(vs@),
        forall|vs: Seq<VoteEntry>| #[trigger] votes_at(b@, pos as int, vs) ==> (r matches Some((out, q))
            && out@ == vs && q == pos + 4 + votes_body(vs).len()),
{
    let (n, start) = match read_u32(b, pos) {
        Some(x) => x,
        None => return None,
    };
    proof {
        assert forall|vs: Seq<VoteEntry>| #[trigger] votes_at(b@, pos as int, vs) implies n == vs.len()
            && votes_body(vs.take(0)).len() == 0 by {
            lemma_list_count(b@, pos as int, vs, |e: VoteEntry| vote_item(e), n);
            assert(vs.take(0) =~= Seq::<VoteEntry>::empty());
        }
    }
    let mut out: Vec<VoteEntry> = Vec::new();
    let mut cur = start;
    let mut i: u32 = 0;
    while i < n
        invariant
            pos + 4 == start <= cur <= b@.len(),
            b@.subrange(pos as int, start as int) == u32_le(n),
            out@.len() == i <= n,
            b@.subrange(start as int, cur as int) == votes_body(out@),
            forall|vs: Seq<VoteEntry>| #[trigger] votes_at(b@, pos as int, vs) ==> n == vs.len()
                && cur == start + votes_body(vs.take(i as int)).len() && out@ == vs.take(i as int),
        decreases n - i,
    {
        proof {
            assert forall|vs: Seq<VoteEntry>| #[trigger] votes_at(b@, pos as int, vs) implies cur
                + IDENTITY_LEN + 1 <= b@.len() && b@.subrange(cur as int, cur + IDENTITY_LEN) == vs[i as int].0@
                && b@[cur + IDENTITY_LEN] == vs[i as int].1 by {
                lemma_list_item_at(b@, start as int, vs, |e: VoteEntry| vote_item(e), i as int);
                let e = vs[i as int];
                assert(b@.subrange(cur as int, cur + IDENTITY_LEN) =~= b@.subrange(cur as int, cur + 33).subrange(0, 32));
                assert(b@[cur + IDENTITY_LEN] == b@.subrange(cur as int, cur + 33)[32]);
            }
        }
        let (id, mid) = match read_identity(b, cur) {
            Some(x) => x,
            None => return None,
        };
        if mid >= b.len() {
            return None;
        }
        let choice = b[mid];
        let next = mid + 1;
        let ghost before = out@;
        out.push((id, choice));
        proof {
            assert(out@.drop_last() =~= before);
            assert(b@.subrange(start as int, next as int) =~= b@.subrange(start as int, cur as int) + id@ + seq![choice]);
            assert forall|vs: Seq<VoteEntry>| #[trigger] votes_at(b@, pos as int, vs) implies next
                == start + votes_body(vs.take(i + 1)).len() && out@ == vs.take(i + 1) by {
                lemma_list_item_at(b@, start as int, vs, |e: VoteEntry| vote_item(e), i as int);
                lemma_identity_from_view(id, vs[i as int].0);
                assert(out@ =~= vs.take(i + 1));
            }
        }
        cur = next;
        i = i + 1;
    }
    proof {
        assert(b@.subrange(pos as int, cur as int) =~= b@.subrange(pos as int, start as int) + b@.subrange(start as int, cur as int));
        assert forall|vs: Seq<VoteEntry>| #[trigger] votes_at(b@, pos as int, vs) implies cur == pos + 4
            + votes_body(vs).len() && out@ == vs by {
            assert(vs.take(n as int) =~= vs);
        }
    }
    Some((out, cur))
}

/// Reads a counted list of identities at `pos`.
pub fn read_identities(b: &[u8], pos: usize) -> (r: Option<(Vec<Identity>, usize)>)
    requires
        pos <= b@.len(),
    ensures
        r matches Some((ids, q)) ==> pos <= q <= b@.len() && ids@.len() <= u32::MAX
            && b@.subrange(pos as int, q as int) == len_prefix(ids@.len() as int) + ids_body(ids@),
        forall|ids: Seq<Identity>| #[trigger] ids_at(b@, pos as int, ids) ==> (r matches Some((out, q))
            && out@ == ids && q == pos + 4 + ids_body(ids).len()),
{
    let (n, start) = match read_u32(b, pos) {
        Some(x) => x,
        None => return None,
    };
    proof {
        assert forall|ids: Seq<Identity>| #[trigger] ids_at(b@, pos as int, ids) implies n == ids.len()
            && ids_body(ids.take(0)).len() == 0 by {
            lemma_list_count(b@, pos as int, ids, |i: Identity| id_item(i), n);
            assert(ids.take(0) =~= Seq::<Identity>::empty());
        }
    }
    let mut out: Vec<Identity> = Vec::new();
    let mut cur = start;
    let mut i: u32 = 0;
    while i < n
        invariant
            pos + 4 == start <= cur <= b@.len(),
            b@.subrange(pos as int, start as int) == u32_le(n),
            out@.len() == i <= n,
            b@.subrange(start as int, cur as int) == ids_body(out@),
            forall|ids: Seq<Identity>| #[trigger] ids_at(b@, pos as int, ids) ==> n == ids.len()
                && cur == start + ids_body(ids.take(i as int)).len() && out@ == ids.take(i as int),
        decreases n - i,
    {
        proof {
            assert forall|ids: Seq<Identity>| #[trigger] ids_at(b@, pos as int, ids) implies cur
                + IDENTITY_LEN <= b@.len() && b@.subrange(cur as int, cur + IDENTITY_LEN) == ids[i as int]@ by {
                lemma_list_item_at(b@, start as int, ids, |i: Identity| id_item(i), i as int);
            }
        }
        let (id, next) = match read_identity(b, cur) {
            Some(x) => x,
            None => return None,
        };
        let ghost before = out@;
        out.push(id);
        proof {
            assert(out@.drop_last() =~= before);
            assert(b@.subrange(start as int, next as int) =~= b@.subrange(start as int, cur as int) + id@);
            assert forall|ids: Seq<Identity>| #[trigger] ids_at(b@, pos as int, ids) implies next
                == start + ids_body(ids.take(i + 1)).len() && out@ == ids.take(i + 1) by {
                lemma_list_item_at(b@, start as int, ids, |i: Identity| id_item(i), i as int);
                lemma_identity_from_view(id, ids[i as int]);
                assert(out@ =~= ids.take(i + 1));
            }
        }
        cur = next;
        i = i + 1;
    }
    proof {
        assert(b@.subrange(pos as int, cur as int) =~= b@.subrange(pos as int, start as int) + b@.subrange(start as int, cur as int));
        assert forall|ids: Seq<Identity>| #[trigger] ids_at(b@, pos as int, ids) implies cur == pos + 4
            + ids_body(ids).len() && out@ == ids by {
            assert(ids.take(n as int) =~= ids);
        }
    }
    Some((out, cur))
}

/// `b` starts with the stored form of the valid poll `p`, which takes `n` bytes.
pub open spec fn stored_at_start(b: Seq<u8>, p: Poll, n: int) -> bool {
    &&& p.wf()
    &&& encodable(p)
    &&& 0 <= n <= b.len()
    &&& poll_bytes(p) == b.take(n)
}

/// Offsets of the parts of `p`'s stored form.
pub open spec fn question_offset(p: Poll) -> int {
    IDENTITY_LEN as int
}

pub open spec fn options_offset(p: Poll) -> int {
    question_offset(p) + text_bytes(p.question@).len()
}

pub open spec fn votes_offset(p: Poll) -> int {
    options_offset(p) + 4 + texts_body(p.options@).len()
}

pub open spec fn total_offset(p: Poll) -> int {
    votes_offset(p) + 4 + votes_body(p.votes@).len()
}

pub open spec fn voters_offset(p: Poll) -> int {
    total_offset(p) + 8
}

/// Each part of a stored poll lies where its offset says.
proof fn lemma_stored_parts(b: Seq<u8>, p: Poll, n: int)
    requires
        stored_at_start(b, p, n),
    ensures
        IDENTITY_LEN <= b.len(),
        b.subrange(0, IDENTITY_LEN as int) == p.creator@,
        text_at(b, question_offset(p), p.question@),
        texts_at(b, options_offset(p), p.options@),
        votes_at(b, votes_offset(p), p.votes@),
        voters_offset(p) <= b.len(),
        b.subrange(total_offset(p), voters_offset(p)) == u64_le(p.total_votes),
        ids_at(b, voters_offset(p), p.voter_addresses@),
        n == voters_offset(p) + 4 + ids_body(p.voter_addresses@).len(),
{
    let c = p.creator@;
    let t = text_bytes(p.question@);
    let lo = len_prefix(p.options@.len() as int);
    let to = texts_body(p.options@);
    let lv = len_prefix(p.votes@.len() as int);
    let tv = votes_body(p.votes@);
    let u = u64_le(p.total_votes);
    let li = len_prefix(p.voter_addresses@.len() as int);
    let ti = ids_body(p.voter_addresses@);
    let pb = poll_bytes(p);
    assert(pb == c + t + lo + to + lv + tv + u + li + ti);
    let a1 = c.len() as int;
    let a2 = a1 + t.len();
    let a3 = a2 + 4;
    let a4 = a3 + to.len();
    let a5 = a4 + 4;
    let a6 = a5 + tv.len();
    let a7 = a6 + 8;
    let a8 = a7 + 4;
    let a9 = a8 + ti.len();
    assert(pb.len() == a9);
    assert(b.subrange(0, a1) =~= pb.subrange(0, a1));
    assert(pb.subrange(0, a1) =~= c);
    assert(b.subrange(a1, a2) =~= pb.subrange(a1, a2));
    assert(pb.subrange(a1, a2) =~= t);
    assert(b.subrange(a2, a3) =~= pb.subrange(a2, a3));
    assert(pb.subrange(a2, a3) =~= lo);
    assert(b.subrange(a3, a4) =~= pb.subrange(a3, a4));
    assert(pb.subrange(a3, a4) =~= to);
    assert(b.subrange(a4, a5) =~= pb.subrange(a4, a5));
    assert(pb.subrange(a4, a5) =~= lv);
    assert(b.subrange(a5, a6) =~= pb.subrange(a5, a6));
    assert(pb.subrange(a5, a6) =~= tv);
    assert(b.subrange(a6, a7) =~= pb.subrange(a6, a7));
    assert(pb.subrange(a6, a7) =~= u);
    assert(b.subrange(a7, a8) =~= pb.subrange(a7, a8));
    assert(pb.subrange(a7, a8) =~= li);
    assert(b.subrange(a8, a9) =~= pb.subrange(a8, a9));
    assert(pb.subrange(a8, a9) =~= ti);
}

/// Reads the poll stored at the start of `b`; bytes after it are ignored.
/// A poll without options is an account that holds no poll. A valid poll
/// stored at the start of `b` is always read back, with its length.
pub fn decode_poll(b: &[u8]) -> (r: Result<(Poll, usize), PollError>)
    ensures
        r matches Ok((p, n)) ==> stored_at_start(b@, p, n as int),
        forall|p: Poll, n: int| #[trigger] stored_at_start(b@, p, n) ==> (r matches Ok((q, m)) && m == n && same_poll(q, p)),
        r matches Err(e) ==> e == PollError::DecodeError || e == PollError::MissingState,
{
    let (creator, p1) = match read_identity(b, 0) {
        Some(x) => x,
        None => {
            proof {
                assert forall|p: Poll, n: int| #[trigger] stored_at_start(b@, p, n) implies false by {
                    lemma_stored_parts(b@, p, n);
                }
            }
            return Err(PollError::DecodeError);
        },
    };
    let (question, p2) = match read_text(b, p1) {
        Some(x) => x,
        None => {
            proof {
                assert forall|p: Poll, n: int| #[trigger] stored_at_start(b@, p, n) implies false by {
                    lemma_stored_parts(b@, p, n);
                }
            }
            return Err(PollError::DecodeError);
        },
    };
    let (options, p3) = match read_texts(b, p2) {
        Some(x) => x,
        None => {
            proof {
                assert forall|p: Poll, n: int| #[trigger] stored_at_start(b@, p, n) implies false by {
                    lemma_stored_parts(b@, p, n);
                }
            }
            return Err(PollError::DecodeError);
        },
    };
    let (votes, p4) = match read_votes(b, p3) {
        Some(x) => x,
        None => {
            proof {
                assert forall|p: Poll, n: int| #[trigger] stored_at_start(b@, p, n) implies false by {
                    lemma_stored_parts(b@, p, n);
                }
            }
            return Err(PollError::DecodeError);
        },
    };
    let (total_votes, p5) = match read_u64(b, p4) {
        Some(x) => x,
        None => {
            proof {
                assert forall|p: Poll, n: int| #[trigger] stored_at_start(b@, p, n) implies false by {
                    lemma_stored_parts(b@, p, n);
                }
            }
            return Err(PollError::DecodeError);
        },
    };
    let (voter_addresses, p6) = match read_identities(b, p5) {
        Some(x) => x,
        None => {
            proof {
                assert forall|p: Poll, n: int| #[trigger] stored_at_start(b@, p, n) implies false by {
                    lemma_stored_parts(b@, p, n);
                }
            }
            return Err(PollError::DecodeError);
        },
    };
    let poll = Poll { creator, question, options, votes, total_votes, voter_addresses };
    proof {
        assert forall|p: Poll, n: int| #[trigger] stored_at_start(b@, p, n) implies same_poll(poll, p) && p6 == n by {
            lemma_stored_parts(b@, p, n);
            lemma_identity_from_view(poll.creator, p.creator);
            lemma_u64_le_injective(poll.total_votes, p.total_votes);
        }
    }
    if poll.options.len() == 0 {
        return Err(PollError::MissingState);
    }
    if !poll.is_valid() {
        return Err(PollError::DecodeError);
    }
    proof {
        let s = b@;
        assert(s.take(p6 as int) =~= s.subrange(0, p1 as int) + s.subrange(p1 as int, p2 as int) + s.subrange(
            p2 as int,
            p3 as int,
        ) + s.subrange(p3 as int, p4 as int) + s.subrange(p4 as int, p5 as int) + s.subrange(p5 as int, p6 as int));
        assert(poll_bytes(poll) =~= s.take(p6 as int));
    }
    Ok((poll, p6))
}

/// Overwrites the start of `data` with `bytes`, keeping its length.
pub fn write_prefix(data: &mut Vec<u8>, bytes: &Vec<u8>)
    requires
        bytes@.len() <= old(data)@.len(),
    ensures
        final(data)@ == bytes@ + old(data)@.skip(bytes@.len() as int),
{
    let ghost start = data@;
    let mut i: usize = 0;
    while i < bytes.len()
        invariant
            0 <= i <= bytes@.len() <= start.len(),
            data@.len() == start.len(),
            data@ == bytes@.take(i as int) + start.skip(i as int),
        decreases bytes@.len() - i,
    {
        data.set(i, bytes[i]);
        i = i + 1;
        assert(data@ =~= bytes@.take(i as int) + start.skip(i as int));
    }
    assert(bytes@.take(i as int) =~= bytes@);
}

/// Texts with the same characters have the same encoding.
pub proof fn lemma_texts_body_views(a: Seq<String>, c: Seq<String>)
    requires
        a.len() == c.len(),
        forall|k: int| 0 <= k < a.len() ==> (#[trigger] a[k])@ == c[k]@,
    ensures
        texts_body(a) == texts_body(c),
    decreases a.len(),
{
    if a.len() > 0 {
        let (da, dc) = (a.drop_last(), c.drop_last());
        assert forall|k: int| 0 <= k < da.len() implies (#[trigger] da[k])@ == dc[k]@ by {
            assert(da[k] == a[k] && dc[k] == c[k]);
        }
        lemma_texts_body_views(da, dc);
        assert(a.last()@ == c[c.len() - 1]@);
    }
}

/// Polls with the same values have the same stored form.
pub proof fn lemma_same_poll_same_bytes(a: Poll, c: Poll)
    requires
        same_poll(a, c),
    ensures
        poll_bytes(a) == poll_bytes(c),
        encodable(a) == encodable(c),
        a.wf() == c.wf(),
{
    lemma_texts_body_views(a.options@, c.options@);
    if encodable(a) {
        assert forall|i: int| 0 <= i < c.options@.len() implies text_fits((#[trigger] c.options@[i])@) by {
            assert(text_fits(a.options@[i]@));
        }
    }
    if encodable(c) {
        assert forall|i: int| 0 <= i < a.options@.len() implies text_fits((#[trigger] a.options@[i])@) by {
            assert(text_fits(c.options@[i]@));
        }
    }
}

/// A stored valid poll, followed by any bytes, is read back as a poll with the
/// same values, and writing that poll again gives exactly the stored bytes.
pub proof fn lemma_round_trip(p: Poll, rest: Seq<u8>, q: Poll)
    requires
        p.wf(),
        encodable(p),
        same_poll(q, p),
    ensures
        stored_at_start(poll_bytes(p) + rest, p, poll_bytes(p).len() as int),
        q.wf(),
        encodable(q),
        poll_bytes(q) == poll_bytes(p),
{
    assert((poll_bytes(p) + rest).take(poll_bytes(p).len() as int) =~= poll_bytes(p));
    lemma_same_poll_same_bytes(q, p);
}

proof fn lemma_votes_body_len(vs: Seq<VoteEntry>)
    ensures
        votes_body(vs).len() == 33 * vs.len(),
    decreases vs.len(),
{
    if vs.len() > 0 {
        lemma_votes_body_len(vs.drop_last());
    }
}

proof fn lemma_ids_body_len(ids: Seq<Identity>)
    ensures
        ids_body(ids).len() == 32 * ids.len(),
    decreases ids.len(),
{
    if ids.len() > 0 {
        lemma_ids_body_len(ids.drop_last());
    }
}

/// One recorded vote makes the stored form 65 bytes longer (the entry and the
/// voter log), and it still fits its prefixes unless the vote count passes
/// the `u32` range.
pub proof fn lemma_vote_grows_bytes(old: Poll, voter: crate::identity::Identity, option_index: u8, new: Poll)
    requires
        old.wf(),
        vote_outcome(old, voter, option_index, new, Ok(())),
    ensures
        poll_bytes(new).len() == poll_bytes(old).len() + 65,
        encodable(new) <==> (encodable(old) && old.votes@.len() + 1 <= u32::MAX),
{
    lemma_votes_body_len(old.votes@);
    lemma_votes_body_len(new.votes@);
    lemma_ids_body_len(old.voter_addresses@);
    lemma_ids_body_len(new.voter_addresses@);
}

} // verus!
