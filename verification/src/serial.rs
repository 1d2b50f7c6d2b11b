//! The byte form of encrypted integers.
//!
//! A stream is a run of records, each an 8-byte little-endian length and as
//! many bytes. An unpacked integer is one record per ciphertext; a packed
//! integer is its width and its ciphertext. What a ciphertext looks like in
//! bytes is the business of the cipher.

use vstd::bytes::*;
use vstd::prelude::*;
use vstd::slice::*;

verus! {

/// Why a byte stream gave no integer.
#[derive(Clone, Copy, Debug, PartialEq, Eq, Structural)]
pub enum DeserializeError {
    /// The stream is not a run of records, or a record is no ciphertext.
    Malformed,
    /// The stream holds an integer, but of another width than asked for, or
    /// with a ciphertext that does not fit the parameters of the cipher.
    ParameterMismatch,
}

/// The stream that holds `items`, one record each.
pub open spec fn frame(items: Seq<Seq<u8>>) -> Seq<u8>
    decreases items.len(),
{
    if items.len() == 0 {
        Seq::empty()
    } else {
        spec_u64_to_le_bytes(items[0].len() as u64) + items[0] + frame(items.skip(1))
    }
}

/// The records of a stream; `None` where the stream breaks off within a
/// record.
pub open spec fn parse(bytes: Seq<u8>) -> Option<Seq<Seq<u8>>>
    decreases bytes.len(),
{
    if bytes.len() == 0 {
        Some(Seq::empty())
    } else if bytes.len() < 8 {
        None
    } else {
        let n = spec_u64_from_le_bytes(bytes.take(8)) as int;
        if bytes.len() - 8 < n {
            None
        } else {
            match parse(bytes.skip(8 + n)) {
                None => None,
                Some(rest) => Some(seq![bytes.subrange(8, 8 + n)] + rest),
            }
        }
    }
}

/// Whether the length of every item fits the length field of a record.
pub open spec fn framable(items: Seq<Seq<u8>>) -> bool {
    forall|i: int| 0 <= i < items.len() ==> (#[trigger] items[i]).len() <= u64::MAX
}

/// The byte strings that `items` hold.
pub open spec fn strings(items: Seq<Vec<u8>>) -> Seq<Seq<u8>> {
    Seq::new(items.len(), |i: int| items[i]@)
}

/// A stream that was written reads back as the items that went into it.
pub proof fn law_parse_frame(items: Seq<Seq<u8>>)
    requires
        framable(items),
    ensures
        parse(frame(items)) == Some(items),
    decreases items.len(),
{
    lemma_auto_spec_u64_to_from_le_bytes();
    if items.len() > 0 {
        let head = items[0];
        let rest = items.skip(1);
        let bytes = frame(items);
        let n = head.len() as int;
        assert(framable(rest)) by {
            assert forall|i: int| 0 <= i < rest.len() implies (#[trigger] rest[i]).len()
                <= u64::MAX by {
                assert(rest[i] == items[i + 1]);
            }
        }
        law_parse_frame(rest);
        assert(bytes.take(8) =~= spec_u64_to_le_bytes(head.len() as u64));
        assert(bytes.subrange(8, 8 + n) =~= head);
        assert(bytes.skip(8 + n) =~= frame(rest));
        assert(seq![head] + rest =~= items);
    }
}

/// A stream that reads as some items is the stream that holds them: the byte
/// form is exact.
pub proof fn law_frame_parse(bytes: Seq<u8>)
    requires
        parse(bytes) is Some,
    ensures
        frame(parse(bytes)->Some_0) == bytes,
        framable(parse(bytes)->Some_0),
    decreases bytes.len(),
{
    lemma_auto_spec_u64_to_from_le_bytes();
    if bytes.len() > 0 {
        let n = spec_u64_from_le_bytes(bytes.take(8)) as int;
        let head = bytes.subrange(8, 8 + n);
        let tail = bytes.skip(8 + n);
        law_frame_parse(tail);
        let rest = parse(tail)->Some_0;
        let items = seq![head] + rest;
        assert(items[0] == head);
        assert(items.skip(1) =~= rest);
        assert(spec_u64_to_le_bytes(spec_u64_from_le_bytes(bytes.take(8))) == bytes.take(8));
        assert(bytes =~= bytes.take(8) + head + tail);
        assert forall|i: int| 0 <= i < items.len() implies (#[trigger] items[i]).len()
            <= u64::MAX by {
            if i > 0 {
                assert(items[i] == rest[i - 1]);
            }
        }
    }
}

proof fn lemma_frame_push(items: Seq<Seq<u8>>, item: Seq<u8>)
    ensures
        frame(items.push(item)) == frame(items) + spec_u64_to_le_bytes(item.len() as u64) + item,
    decreases items.len(),
{
    if items.len() == 0 {
        let one = items.push(item);
        assert(one[0] == item);
        assert(one.skip(1).len() == 0);
        assert(frame(one.skip(1)) =~= Seq::<u8>::empty());
        assert(frame(items) =~= Seq::<u8>::empty());
        assert(frame(one) =~= frame(items) + spec_u64_to_le_bytes(item.len() as u64) + item);
    } else {
        lemma_frame_push(items.skip(1), item);
        assert(items.push(item).skip(1) =~= items.skip(1).push(item));
        assert(frame(items.push(item)) =~= frame(items) + spec_u64_to_le_bytes(item.len() as u64)
            + item);
    }
}

fn append(bytes: &mut Vec<u8>, more: &Vec<u8>)
    ensures
        final(bytes)@ == old(bytes)@ + more@,
{
    let mut i: usize = 0;
    while i < more.len()
        invariant
            i <= more@.len(),
            bytes@ == old(bytes)@ + more@.take(i as int),
        decreases more@.len() - i,
    {
        bytes.push(more[i]);
        i += 1;
        assert(bytes@ =~= old(bytes)@ + more@.take(i as int));
    }
    assert(more@.take(more@.len() as int) =~= more@);
}

/// Writes the stream that holds `items`.
pub fn write_frame(items: &Vec<Vec<u8>>) -> (bytes: Vec<u8>)
    ensures
        bytes@ == frame(strings(items@)),
{
    let mut bytes: Vec<u8> = Vec::new();
    let mut i: usize = 0;
    assert(strings(items@).take(0) =~= Seq::<Seq<u8>>::empty());
    while i < items.len()
        invariant
            i <= items@.len(),
            bytes@ == frame(strings(items@).take(i as int)),
        decreases items@.len() - i,
    {
        let item = &items[i];
        proof {
            lemma_frame_push(strings(items@).take(i as int), item@);
            assert(strings(items@).take(i + 1) =~= strings(items@).take(i as int).push(item@));
        }
        let length = u64_to_le_bytes(item.len() as u64);
        append(&mut bytes, &length);
        append(&mut bytes, item);
        i += 1;
    }
    assert(strings(items@).take(items@.len() as int) =~= strings(items@));
    bytes
}

/// Reads the records of a stream.
pub fn read_frame(bytes: &[u8]) -> (r: Option<Vec<Vec<u8>>>)
    ensures
        match r {
            Some(items) => parse(bytes@) == Some(strings(items@)),
            None => parse(bytes@) is None,
        },
{
    let mut items: Vec<Vec<u8>> = Vec::new();
    let mut pos: usize = 0;
    proof {
        assert(bytes@.skip(0) =~= bytes@);
        assert(strings(items@) =~= Seq::<Seq<u8>>::empty());
        match parse(bytes@) {
            Some(all) => {
                assert(Seq::<Seq<u8>>::empty() + all =~= all);
            },
            None => {},
        }
    }
    while pos < bytes.len()
        invariant
            pos <= bytes@.len(),
            parse(bytes@) == match parse(bytes@.skip(pos as int)) {
                None => None::<Seq<Seq<u8>>>,
                Some(rest) => Some(strings(items@) + rest),
            },
        decreases bytes@.len() - pos,
    {
        let ghost rem = bytes@.skip(pos as int);
        if bytes.len() - pos < 8 {
            return None;
        }
        let n = u64_from_le_bytes(slice_subrange(bytes, pos, pos + 8));
        proof {
            assert(rem.take(8) =~= bytes@.subrange(pos as int, pos + 8));
        }
        if n > (bytes.len() - pos - 8) as u64 {
            return None;
        }
        let start = pos + 8;
        let end = start + n as usize;
        let item = slice_to_vec(slice_subrange(bytes, start, end));
        proof {
            let before = strings(items@);
            assert(rem.subrange(8, 8 + n) =~= item@);
            assert(rem.skip(8 + n) =~= bytes@.skip(end as int));
            match parse(bytes@.skip(end as int)) {
                None => {},
                Some(rest) => {
                    assert(before + (seq![item@] + rest) =~= before.push(item@) + rest);
                },
            }
            assert(strings(items@.push(item)) =~= before.push(item@));
        }
        items.push(item);
        pos = end;
    }
    proof {
        assert(bytes@.skip(pos as int) =~= Seq::<u8>::empty());
        assert(strings(items@) + Seq::<Seq<u8>>::empty() =~= strings(items@));
    }
    Some(items)
}

} // verus!
