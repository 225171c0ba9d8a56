//! What the store of waiting packets and the byte helpers do, operation by operation.

use crate::bytes;
use crate::packets::PacketStore;
use vstd::prelude::*;

verus! {

/// Storing: the payload stands under its number, whatever stood there before, and the others stay.
pub proof fn lemma_store(s: &mut PacketStore, k: u64, payload: Vec<u8>, fresh: PacketStore)
    requires
        call_ensures(PacketStore::insert, (s, k, payload), ()),
        call_ensures(PacketStore::new, (), fresh),
    ensures
        forall|j: u64| !#[trigger] fresh@.contains_key(j),
        final(s)@.contains_key(k) && final(s)@[k] == payload@,
        forall|j: u64|
            j != k ==> (#[trigger] final(s)@.contains_key(j) <==> old(s)@.contains_key(j)),
        forall|j: u64| #[trigger]
            final(s)@.contains_key(j) && j != k ==> final(s)@[j] == old(s)@[j],
{
}

/// Taking out: the payload comes out and is gone; the others stay.
pub proof fn lemma_taken(s: &mut PacketStore, k: u64, r: Option<Vec<u8>>)
    requires
        call_ensures(PacketStore::take, (s, k), r),
    ensures
        r is Some <==> old(s)@.contains_key(k),
        r is Some ==> r.unwrap()@ == old(s)@[k],
        forall|j: u64| #[trigger]
            final(s)@.contains_key(j) <==> old(s)@.contains_key(j) && j != k,
        forall|j: u64| #[trigger] final(s)@.contains_key(j) ==> final(s)@[j] == old(s)@[j],
{
}

/// Looking: a copy of a payload, how many there are, and the oldest and the newest number.
pub proof fn lemma_looked_up(
    s: &PacketStore,
    k: u64,
    r: Option<Vec<u8>>,
    n: usize,
    none: bool,
    first: Option<u64>,
    last: Option<u64>,
)
    requires
        call_ensures(PacketStore::copy_of, (s, k), r),
        call_ensures(PacketStore::len, (s,), n),
        call_ensures(PacketStore::is_empty, (s,), none),
        call_ensures(PacketStore::first, (s,), first),
        call_ensures(PacketStore::last, (s,), last),
    ensures
        r is Some <==> s@.contains_key(k),
        r is Some ==> r.unwrap()@ == s@[k],
        n == s@.dom().len(),
        none <==> forall|j: u64| !#[trigger] s@.contains_key(j),
        first is None <==> none,
        last is None <==> none,
        first is Some ==> s@.contains_key(first.unwrap()) && forall|j: u64| #[trigger]
            s@.contains_key(j) ==> first.unwrap() <= j,
        last is Some ==> s@.contains_key(last.unwrap()) && forall|j: u64| #[trigger]
            s@.contains_key(j) ==> j <= last.unwrap(),
{
    if forall|j: u64| !#[trigger] s@.contains_key(j) {
        assert(s@ =~= Map::empty());
    }
}

/// Dropping: exactly what lies before the number goes, and it is counted.
pub proof fn lemma_dropped(s: &mut PacketStore, to: u64, n: usize)
    requires
        old(s)@.dom().finite(),
        call_ensures(PacketStore::drop_below, (s, to), n),
    ensures
        forall|j: u64| #[trigger]
            final(s)@.contains_key(j) <==> old(s)@.contains_key(j) && to <= j,
        forall|j: u64| #[trigger] final(s)@.contains_key(j) ==> final(s)@[j] == old(s)@[j],
        n + final(s)@.dom().len() == old(s)@.dom().len(),
{
    crate::packets::lemma_count_split(old(s)@, to);
}

/// Numbers of a packet header: each byte counts 256 times the one after it.
pub proof fn lemma_header_numbers(
    b: &[u8],
    off: usize,
    x: u32,
    y: u16,
    v: &mut Vec<u8>,
    p: u32,
    w: &mut Vec<u8>,
    q: u16,
)
    requires
        off + 4 <= b@.len(),
        call_ensures(bytes::u32_at, (b, off), x),
        call_ensures(bytes::u16_at, (b, off), y),
        call_ensures(bytes::push_be32, (v, p), ()),
        call_ensures(bytes::push_be16, (w, q), ()),
    ensures
        x == ((b@[off as int] * 256 + b@[off + 1]) * 256 + b@[off + 2]) * 256 + b@[off + 3],
        y == b@[off as int] * 256 + b@[off + 1],
        ({
            let s = final(v)@;
            let n = old(v)@.len() as int;
            &&& s.len() == n + 4
            &&& s.take(n) == old(v)@
            &&& p == ((s[n] * 256 + s[n + 1]) * 256 + s[n + 2]) * 256 + s[n + 3]
        }),
        ({
            let s = final(w)@;
            let n = old(w)@.len() as int;
            &&& s.len() == n + 2
            &&& s.take(n) == old(w)@
            &&& q == s[n] * 256 + s[n + 1]
        }),
{
    let n = old(v)@.len() as int;
    assert(final(v)@.take(n) =~= old(v)@);
    assert(final(v)@[n] == bytes::be32(p)[0]);
    assert(final(v)@[n + 1] == bytes::be32(p)[1]);
    assert(final(v)@[n + 2] == bytes::be32(p)[2]);
    assert(final(v)@[n + 3] == bytes::be32(p)[3]);
    let m = old(w)@.len() as int;
    assert(final(w)@.take(m) =~= old(w)@);
    assert(final(w)@[m] == bytes::be16(q)[0]);
    assert(final(w)@[m + 1] == bytes::be16(q)[1]);
}

/// Samples: the low byte first, negative ones as 65536 less. Bytes are appended as they are.
pub proof fn lemma_sample_bytes(
    lo: u8,
    hi: u8,
    x: i16,
    v: &mut Vec<u8>,
    p: i16,
    w: &mut Vec<u8>,
    b: &[u8],
)
    requires
        call_ensures(bytes::i16_from_le, (lo, hi), x),
        call_ensures(bytes::push_i16_le, (v, p), ()),
        call_ensures(bytes::push_all, (w, b), ()),
    ensures
        x == lo + 256 * hi || x == lo + 256 * hi - 65536,
        ({
            let s = final(v)@;
            let n = old(v)@.len() as int;
            &&& s.len() == n + 2
            &&& s.take(n) == old(v)@
            &&& p == s[n] + 256 * s[n + 1] || p == s[n] + 256 * s[n + 1] - 65536
        }),
        final(w)@ == old(w)@ + b@,
{
    let n = old(v)@.len() as int;
    assert(final(v)@.take(n) =~= old(v)@);
    assert(final(v)@[n] == bytes::i16_le(p)[0]);
    assert(final(v)@[n + 1] == bytes::i16_le(p)[1]);
}

} // verus!
