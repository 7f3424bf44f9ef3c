//! The canonical byte form of a block's content.
//!
//! The identifier and the signature of a block are both computed over one
//! byte string that is determined by the block's parents and its payload:
//!
//! ```text
//! count(parents) | len(parent 0) | parent 0 | ... | len(parent n-1) | parent n-1 | payload
//! ```
//!
//! Counts and lengths are unsigned 64-bit integers in little-endian order,
//! parents are written in UTF-8. Two contents have the same canonical form
//! only if they are the same content.

use vstd::bytes::*;
use vstd::prelude::*;
use vstd::utf8::*;

verus! {

/// The eight bytes that announce a count or a length.
pub open spec fn length_prefix(n: nat) -> Seq<u8> {
    spec_u64_to_le_bytes(n as u64)
}

/// A byte string preceded by its length.
pub open spec fn framed(item: Seq<u8>) -> Seq<u8> {
    length_prefix(item.len()) + item
}

/// The frames of `items`, one after the other.
pub open spec fn framed_all(items: Seq<Seq<u8>>) -> Seq<u8>
    decreases items.len(),
{
    if items.len() == 0 {
        Seq::empty()
    } else {
        framed(items.first()) + framed_all(items.drop_first())
    }
}

/// The UTF-8 form of each identifier.
pub open spec fn utf8_of_each(ids: Seq<Seq<char>>) -> Seq<Seq<u8>> {
    Seq::new(ids.len(), |i: int| encode_utf8(ids[i]))
}

/// The canonical bytes of a content with the given parents and payload.
pub open spec fn canonical_bytes(parents: Seq<Seq<char>>, data: Seq<u8>) -> Seq<u8> {
    length_prefix(parents.len()) + framed_all(utf8_of_each(parents)) + data
}

/// Every count and length of the content can be written in 64 bits.
pub open spec fn sizes_fit(parents: Seq<Seq<char>>) -> bool {
    &&& parents.len() <= u64::MAX
    &&& forall|i: int| 0 <= i < parents.len() ==> encode_utf8(#[trigger] parents[i]).len() <= u64::MAX
}

/// The identifiers held by a vector of strings.
pub open spec fn ids_of(names: Seq<String>) -> Seq<Seq<char>> {
    Seq::new(names.len(), |i: int| names[i]@)
}

/// Appending one more item appends its frame.
pub proof fn lemma_framed_all_push(items: Seq<Seq<u8>>, item: Seq<u8>)
    ensures
        framed_all(items.push(item)) == framed_all(items) + framed(item),
    decreases items.len(),
{
    if items.len() == 0 {
        assert(items.push(item).drop_first() =~= Seq::<Seq<u8>>::empty());
        assert(framed_all(items.push(item)) =~= framed(item) + framed_all(Seq::<Seq<u8>>::empty()));
        assert(framed_all(items) + framed(item) =~= framed(item));
    } else {
        assert(items.push(item).drop_first() =~= items.drop_first().push(item));
        lemma_framed_all_push(items.drop_first(), item);
        assert(framed_all(items.push(item)) =~= framed_all(items) + framed(item));
    }
}

/// A length prefix determines the length it announces.
pub proof fn lemma_length_prefix_injective(a: nat, b: nat)
    requires
        a <= u64::MAX,
        b <= u64::MAX,
        length_prefix(a) == length_prefix(b),
    ensures
        a == b,
{
    lemma_auto_spec_u64_to_from_le_bytes();
    assert(spec_u64_from_le_bytes(spec_u64_to_le_bytes(a as u64)) == a as u64);
    assert(spec_u64_from_le_bytes(spec_u64_to_le_bytes(b as u64)) == b as u64);
}

/// Two runs of frames of the same number of items, each followed by a tail,
/// are the same bytes only if the items and the tails are the same.
pub proof fn lemma_framed_all_injective(
    a: Seq<Seq<u8>>,
    tail_a: Seq<u8>,
    b: Seq<Seq<u8>>,
    tail_b: Seq<u8>,
)
    requires
        a.len() == b.len(),
        forall|i: int| 0 <= i < a.len() ==> (#[trigger] a[i]).len() <= u64::MAX,
        forall|i: int| 0 <= i < b.len() ==> (#[trigger] b[i]).len() <= u64::MAX,
        framed_all(a) + tail_a == framed_all(b) + tail_b,
    ensures
        a == b,
        tail_a == tail_b,
    decreases a.len(),
{
    lemma_auto_spec_u64_to_from_le_bytes();
    if a.len() == 0 {
        assert(framed_all(a) + tail_a =~= tail_a);
        assert(framed_all(b) + tail_b =~= tail_b);
        assert(a =~= b);
    } else {
        let whole_a = framed_all(a) + tail_a;
        let whole_b = framed_all(b) + tail_b;
        let rest_a = framed_all(a.drop_first()) + tail_a;
        let rest_b = framed_all(b.drop_first()) + tail_b;
        assert(whole_a =~= length_prefix(a[0].len()) + (a[0] + rest_a));
        assert(whole_b =~= length_prefix(b[0].len()) + (b[0] + rest_b));
        assert(length_prefix(a[0].len()) =~= whole_a.subrange(0, 8));
        assert(length_prefix(b[0].len()) =~= whole_b.subrange(0, 8));
        lemma_length_prefix_injective(a[0].len(), b[0].len());
        let n = a[0].len() as int;
        assert(a[0] =~= whole_a.subrange(8, 8 + n));
        assert(b[0] =~= whole_b.subrange(8, 8 + n));
        assert(rest_a =~= whole_a.subrange(8 + n, whole_a.len() as int));
        assert(rest_b =~= whole_b.subrange(8 + n, whole_b.len() as int));
        lemma_framed_all_injective(a.drop_first(), tail_a, b.drop_first(), tail_b);
        assert(a =~= seq![a[0]] + a.drop_first());
        assert(b =~= seq![b[0]] + b.drop_first());
    }
}

/// The canonical form is injective: contents with the same canonical bytes
/// have the same parents, in the same order, and the same payload.
pub proof fn lemma_canonical_bytes_injective(
    parents_a: Seq<Seq<char>>,
    data_a: Seq<u8>,
    parents_b: Seq<Seq<char>>,
    data_b: Seq<u8>,
)
    requires
        sizes_fit(parents_a),
        sizes_fit(parents_b),
        canonical_bytes(parents_a, data_a) == canonical_bytes(parents_b, data_b),
    ensures
        parents_a == parents_b,
        data_a == data_b,
{
    lemma_auto_spec_u64_to_from_le_bytes();
    let whole_a = canonical_bytes(parents_a, data_a);
    let whole_b = canonical_bytes(parents_b, data_b);
    let items_a = utf8_of_each(parents_a);
    let items_b = utf8_of_each(parents_b);
    assert(length_prefix(parents_a.len()) =~= whole_a.subrange(0, 8));
    assert(length_prefix(parents_b.len()) =~= whole_b.subrange(0, 8));
    lemma_length_prefix_injective(parents_a.len(), parents_b.len());
    assert(framed_all(items_a) + data_a =~= whole_a.subrange(8, whole_a.len() as int));
    assert(framed_all(items_b) + data_b =~= whole_b.subrange(8, whole_b.len() as int));
    lemma_framed_all_injective(items_a, data_a, items_b, data_b);
    assert forall|i: int| 0 <= i < parents_a.len() implies parents_a[i] == parents_b[i] by {
        encode_utf8_decode_utf8(parents_a[i]);
        encode_utf8_decode_utf8(parents_b[i]);
        assert(items_a[i] == items_b[i]);
    }
    assert(parents_a =~= parents_b);
}

/// Writes the canonical bytes of a content.
pub fn canonical_payload(parents: &Vec<String>, data: &Vec<u8>) -> (bytes: Vec<u8>)
    ensures
        bytes@ == canonical_bytes(ids_of(parents@), data@),
        sizes_fit(ids_of(parents@)),
{
    let count: usize = parents.len();
    let mut bytes: Vec<u8> = u64_to_le_bytes(count as u64);
    let mut i: usize = 0;
    proof {
        assert(utf8_of_each(ids_of(parents@)).take(0) =~= Seq::<Seq<u8>>::empty());
        assert(bytes@ =~= length_prefix(count as nat) + framed_all(Seq::<Seq<u8>>::empty()));
    }
    while i < count
        invariant
            count == parents@.len(),
            i <= count,
            bytes@ == length_prefix(count as nat) + framed_all(
                utf8_of_each(ids_of(parents@)).take(i as int),
            ),
            forall|j: int| 0 <= j < i ==> encode_utf8(#[trigger] ids_of(parents@)[j]).len() <= u64::MAX,
        decreases count - i,
    {
        let text: &[u8] = parents[i].as_str().as_bytes();
        let len: usize = text.len();
        let mut prefix: Vec<u8> = u64_to_le_bytes(len as u64);
        let ghost before = bytes@;
        let ghost items = utf8_of_each(ids_of(parents@));
        bytes.append(&mut prefix);
        let mut k: usize = 0;
        while k < len
            invariant
                len == text@.len(),
                k <= len,
                bytes@ == before + length_prefix(len as nat) + text@.take(k as int),
            decreases len - k,
        {
            bytes.push(text[k]);
            proof {
                assert(text@.take(k as int + 1) =~= text@.take(k as int).push(text@[k as int]));
            }
            k += 1;
        }
        proof {
            assert(text@.take(len as int) =~= text@);
            assert(items[i as int] == text@);
            assert(items.take(i as int + 1) =~= items.take(i as int).push(items[i as int]));
            lemma_framed_all_push(items.take(i as int), items[i as int]);
            assert(bytes@ =~= length_prefix(count as nat) + framed_all(items.take(i as int + 1)));
        }
        i += 1;
    }
    let ghost framed_parents = bytes@;
    proof {
        let items = utf8_of_each(ids_of(parents@));
        assert(items.take(count as int) =~= items);
    }
    let mut k: usize = 0;
    let len: usize = data.len();
    while k < len
        invariant
            len == data@.len(),
            k <= len,
            bytes@ == framed_parents + data@.take(k as int),
        decreases len - k,
    {
        bytes.push(data[k]);
        proof {
            assert(data@.take(k as int + 1) =~= data@.take(k as int).push(data@[k as int]));
        }
        k += 1;
    }
    proof {
        assert(data@.take(len as int) =~= data@);
    }
    bytes
}

} // verus!
