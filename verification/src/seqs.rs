use vstd::prelude::*;
use crate::records::{
    item_enc, item_encodable, lemma_item_round_trip, lemma_msgvec_round_trip, msgvec_enc,
    parse_item, parse_msgvec, vec_encodable, ItemView, MessageItem, MessageVec, VecView,
};
use crate::wire::{
    compact_bytes, decode_compact, encode_compact, lemma_compact_round_trip, parse_compact,
    CodecError,
};

verus! {

// ---------------------------------------------------------------------
// wire form of a sequence of Value Records
// ---------------------------------------------------------------------

/// Every record, and the count of records, fits the wire's 32-bit length
/// domain.
pub open spec fn items_encodable(items: Seq<ItemView>) -> bool {
    &&& items.len() < 0x1_0000_0000
    &&& forall|i: int| 0 <= i < items.len() ==> item_encodable(#[trigger] items[i])
}

/// The concatenated wire forms of a sequence of Value Records.
pub open spec fn items_body_enc(items: Seq<ItemView>) -> Seq<u8>
    decreases items.len(),
{
    if items.len() == 0 {
        Seq::empty()
    } else {
        item_enc(items[0]) + items_body_enc(items.drop_first())
    }
}

/// The wire form of a sequence of Value Records: the count, compact, then
/// each record's own wire form.
pub open spec fn items_seq_enc(items: Seq<ItemView>) -> Seq<u8> {
    compact_bytes(items.len()) + items_body_enc(items)
}

/// Reads exactly `k` Value Records from the front of `s`.
pub open spec fn parse_items_n(s: Seq<u8>, k: nat) -> Result<(Seq<ItemView>, nat), CodecError>
    decreases k,
{
    if k == 0 {
        Ok((Seq::empty(), 0))
    } else {
        match parse_item(s) {
            Err(e) => Err(e),
            Ok((it, c)) => match parse_items_n(s.skip(c as int), (k - 1) as nat) {
                Err(e) => Err(e),
                Ok((rest, c2)) => Ok((seq![it] + rest, c + c2)),
            },
        }
    }
}

/// Reads a count-prefixed sequence of Value Records from the front of
/// `s`.
pub open spec fn parse_items(s: Seq<u8>) -> Result<(Seq<ItemView>, nat), CodecError> {
    match parse_compact(s) {
        Err(e) => Err(e),
        Ok((k, c)) => match parse_items_n(s.skip(c as int), k) {
            Err(e) => Err(e),
            Ok((items, c2)) => Ok((items, c + c2)),
        },
    }
}

proof fn lemma_items_n_round_trip(items: Seq<ItemView>, rest: Seq<u8>)
    requires
        items_encodable(items),
    ensures
        parse_items_n(items_body_enc(items) + rest, items.len()) == Ok::<
            (Seq<ItemView>, nat),
            CodecError,
        >((items, items_body_enc(items).len())),
    decreases items.len(),
{
    if items.len() == 0 {
        assert(items_body_enc(items) + rest =~= rest);
        assert(items =~= Seq::<ItemView>::empty());
    } else {
        let tail = items.drop_first();
        let head_enc = item_enc(items[0]);
        let tail_enc = items_body_enc(tail);
        let s = items_body_enc(items) + rest;
        assert(s =~= head_enc + (tail_enc + rest));
        lemma_item_round_trip(items[0], tail_enc + rest);
        assert(s.skip(head_enc.len() as int) =~= tail_enc + rest);
        assert(forall|i: int| 0 <= i < tail.len() ==> tail[i] == items[i + 1]);
        lemma_items_n_round_trip(tail, rest);
        assert(seq![items[0]] + tail =~= items);
    }
}

/// A sequence of Value Records parses back to the records it was encoded
/// from.
pub proof fn lemma_items_seq_round_trip(items: Seq<ItemView>, rest: Seq<u8>)
    requires
        items_encodable(items),
    ensures
        items_seq_enc(items).len() >= 1,
        parse_items(items_seq_enc(items) + rest) == Ok::<(Seq<ItemView>, nat), CodecError>(
            (items, items_seq_enc(items).len()),
        ),
{
    let c = compact_bytes(items.len());
    let body = items_body_enc(items);
    let s = items_seq_enc(items) + rest;
    assert(s =~= c + (body + rest));
    lemma_compact_round_trip(items.len(), body + rest);
    assert(s.skip(c.len() as int) =~= body + rest);
    lemma_items_n_round_trip(items, rest);
}

proof fn lemma_items_body_snoc(items: Seq<ItemView>, i: int)
    requires
        0 <= i < items.len(),
    ensures
        items_body_enc(items.take(i + 1)) == items_body_enc(items.take(i)) + item_enc(items[i]),
    decreases i,
{
    if i == 0 {
        assert(items.take(1).drop_first() =~= Seq::<ItemView>::empty());
        assert(items.take(1)[0] == items[0]);
        assert(items.take(0) =~= Seq::<ItemView>::empty());
        assert(items_body_enc(items.take(i + 1)) =~= items_body_enc(items.take(i)) + item_enc(
            items[i],
        ));
    } else {
        let tail = items.drop_first();
        lemma_items_body_snoc(tail, i - 1);
        assert(items.take(i + 1).drop_first() =~= tail.take(i));
        assert(items.take(i).drop_first() =~= tail.take(i - 1));
        assert(items.take(i + 1)[0] == items[0]);
        assert(items.take(i)[0] == items[0]);
        assert(tail[i - 1] == items[i]);
        assert(item_enc(items[0]) + (items_body_enc(tail.take(i - 1)) + item_enc(items[i])) =~= (
        item_enc(items[0]) + items_body_enc(tail.take(i - 1))) + item_enc(items[i]));
    }
}

/// Appends a count-prefixed sequence of Value Records to `out`.
pub(crate) fn encode_items(out: &mut Vec<u8>, items: &Vec<MessageItem>)
    requires
        items_encodable(items.deep_view()),
    ensures
        final(out)@ == old(out)@ + items_seq_enc(items.deep_view()),
{
    let ghost iv = items.deep_view();
    proof {
        assert(iv.len() == items@.len());
    }
    encode_compact(out, items.len() as u32);
    let mut i: usize = 0;
    proof {
        assert(items_body_enc(iv.take(0)) =~= Seq::<u8>::empty());
        assert(out@ =~= old(out)@ + compact_bytes(iv.len()) + items_body_enc(iv.take(0)));
    }
    while i < items.len()
        invariant
            i <= items.len(),
            iv == items.deep_view(),
            items_encodable(iv),
            iv.len() == items@.len(),
            out@ == old(out)@ + compact_bytes(iv.len()) + items_body_enc(iv.take(i as int)),
        decreases items.len() - i,
    {
        let it: &MessageItem = &items[i];
        proof {
            assert(it@ == iv[i as int]);
        }
        it.encode_to(out);
        proof {
            lemma_items_body_snoc(iv, i as int);
            assert(out@ =~= old(out)@ + compact_bytes(iv.len()) + items_body_enc(
                iv.take(i + 1),
            ));
        }
        i = i + 1;
    }
    proof {
        assert(iv.take(iv.len() as int) =~= iv);
        assert(out@ =~= old(out)@ + items_seq_enc(iv));
    }
}

/// Reads a count-prefixed sequence of Value Records at `pos`.
pub(crate) fn decode_items(s: &[u8], pos: usize) -> (r: Result<
    (Vec<MessageItem>, usize),
    CodecError,
>)
    requires
        pos <= s@.len(),
    ensures
        (match r {
            Ok(v) => parse_items(s@.skip(pos as int)) == Ok::<(Seq<ItemView>, nat), CodecError>(
                (v.0.deep_view(), (v.1 - pos) as nat),
            ) && pos <= v.1 <= s@.len(),
            Err(e) => parse_items(s@.skip(pos as int)) == Err::<(Seq<ItemView>, nat), CodecError>(
                e,
            ),
        }),
{
    let ghost t = s@.skip(pos as int);
    let (count32, p1) = match decode_compact(s, pos) {
        Ok(v) => v,
        Err(e) => {
            return Err(e);
        },
    };
    let count = count32 as usize;
    let mut acc: Vec<MessageItem> = Vec::new();
    let mut p: usize = p1;
    let mut i: usize = 0;
    proof {
        assert(acc.deep_view() =~= Seq::<ItemView>::empty());
        assert(t.skip((p1 - pos) as int) =~= t.skip((p - pos) as int));
    }
    while i < count
        invariant
            i <= count,
            pos <= p1 <= p <= s@.len(),
            t == s@.skip(pos as int),
            acc.deep_view().len() == i,
            parse_compact(t) == Ok::<(nat, nat), CodecError>((count as nat, (p1 - pos) as nat)),
            parse_items_n(t.skip((p1 - pos) as int), count as nat) == (match parse_items_n(
                t.skip((p - pos) as int),
                (count - i) as nat,
            ) {
                Ok((tail, m)) => Ok::<(Seq<ItemView>, nat), CodecError>(
                    (acc.deep_view() + tail, ((p - p1) as nat + m)),
                ),
                Err(e) => Err(e),
            }),
        decreases count - i,
    {
        let ghost prev = acc.deep_view();
        let ghost cur = t.skip((p - pos) as int);
        proof {
            assert(s@.skip(p as int) =~= cur);
        }
        let (it, p2) = match MessageItem::decode_from(s, p) {
            Ok(v) => v,
            Err(e) => {
                proof {
                    assert(parse_items_n(cur, (count - i) as nat) == Err::<
                        (Seq<ItemView>, nat),
                        CodecError,
                    >(e));
                    assert(parse_items_n(t.skip((p1 - pos) as int), count as nat) == Err::<
                        (Seq<ItemView>, nat),
                        CodecError,
                    >(e));
                    assert(parse_items(t) == Err::<(Seq<ItemView>, nat), CodecError>(e));
                }
                return Err(e);
            },
        };
        proof {
            let k = (count - i) as nat;
            assert(cur.skip((p2 - p) as int) =~= t.skip((p2 - pos) as int));
            let res = parse_items_n(t.skip((p2 - pos) as int), (k - 1) as nat);
            assert(parse_items_n(cur, k) == (match res {
                Ok((tail2, m2)) => Ok::<(Seq<ItemView>, nat), CodecError>(
                    (seq![it@] + tail2, ((p2 - p) as nat + m2)),
                ),
                Err(e) => Err(e),
            }));
            if res is Ok {
                let (tail2, m2) = res->Ok_0;
                assert(prev + (seq![it@] + tail2) =~= prev.push(it@) + tail2);
            }
        }
        acc.push(it);
        p = p2;
        i = i + 1;
        proof {
            assert(acc.deep_view() =~~= prev.push(it@));
        }
    }
    proof {
        let done = t.skip((p - pos) as int);
        assert(parse_items_n(done, 0) == Ok::<(Seq<ItemView>, nat), CodecError>(
            (Seq::<ItemView>::empty(), 0nat),
        ));
        assert(acc.deep_view() + Seq::<ItemView>::empty() =~= acc.deep_view());
    }
    Ok((acc, p))
}

// ---------------------------------------------------------------------
// wire form of a sequence of Array Records
// ---------------------------------------------------------------------

/// Every record, and the count of records, fits the wire's 32-bit length
/// domain.
pub open spec fn vecs_encodable(vecs: Seq<VecView>) -> bool {
    &&& vecs.len() < 0x1_0000_0000
    &&& forall|i: int| 0 <= i < vecs.len() ==> vec_encodable(#[trigger] vecs[i])
}

/// The concatenated wire forms of a sequence of Array Records.
pub open spec fn vecs_body_enc(vecs: Seq<VecView>) -> Seq<u8>
    decreases vecs.len(),
{
    if vecs.len() == 0 {
        Seq::empty()
    } else {
        msgvec_enc(vecs[0]) + vecs_body_enc(vecs.drop_first())
    }
}

/// The wire form of a sequence of Array Records: the count, compact, then
/// each record's own wire form.
pub open spec fn vecs_seq_enc(vecs: Seq<VecView>) -> Seq<u8> {
    compact_bytes(vecs.len()) + vecs_body_enc(vecs)
}

/// Reads exactly `k` Array Records from the front of `s`.
pub open spec fn parse_vecs_n(s: Seq<u8>, k: nat) -> Result<(Seq<VecView>, nat), CodecError>
    decreases k,
{
    if k == 0 {
        Ok((Seq::empty(), 0))
    } else {
        match parse_msgvec(s) {
            Err(e) => Err(e),
            Ok((mv, c)) => match parse_vecs_n(s.skip(c as int), (k - 1) as nat) {
                Err(e) => Err(e),
                Ok((rest, c2)) => Ok((seq![mv] + rest, c + c2)),
            },
        }
    }
}

/// Reads a count-prefixed sequence of Array Records from the front of
/// `s`.
pub open spec fn parse_vecs(s: Seq<u8>) -> Result<(Seq<VecView>, nat), CodecError> {
    match parse_compact(s) {
        Err(e) => Err(e),
        Ok((k, c)) => match parse_vecs_n(s.skip(c as int), k) {
            Err(e) => Err(e),
            Ok((vecs, c2)) => Ok((vecs, c + c2)),
        },
    }
}

proof fn lemma_vecs_n_round_trip(vecs: Seq<VecView>, rest: Seq<u8>)
    requires
        vecs_encodable(vecs),
    ensures
        parse_vecs_n(vecs_body_enc(vecs) + rest, vecs.len()) == Ok::<
            (Seq<VecView>, nat),
            CodecError,
        >((vecs, vecs_body_enc(vecs).len())),
    decreases vecs.len(),
{
    if vecs.len() == 0 {
        assert(vecs_body_enc(vecs) + rest =~= rest);
        assert(vecs =~= Seq::<VecView>::empty());
    } else {
        let tail = vecs.drop_first();
        let head_enc = msgvec_enc(vecs[0]);
        let tail_enc = vecs_body_enc(tail);
        let s = vecs_body_enc(vecs) + rest;
        assert(s =~= head_enc + (tail_enc + rest));
        lemma_msgvec_round_trip(vecs[0], tail_enc + rest);
        assert(s.skip(head_enc.len() as int) =~= tail_enc + rest);
        assert(forall|i: int| 0 <= i < tail.len() ==> tail[i] == vecs[i + 1]);
        lemma_vecs_n_round_trip(tail, rest);
        assert(seq![vecs[0]] + tail =~= vecs);
    }
}

/// A sequence of Array Records parses back to the records it was encoded
/// from.
pub proof fn lemma_vecs_seq_round_trip(vecs: Seq<VecView>, rest: Seq<u8>)
    requires
        vecs_encodable(vecs),
    ensures
        vecs_seq_enc(vecs).len() >= 1,
        parse_vecs(vecs_seq_enc(vecs) + rest) == Ok::<(Seq<VecView>, nat), CodecError>(
            (vecs, vecs_seq_enc(vecs).len()),
        ),
{
    let c = compact_bytes(vecs.len());
    let body = vecs_body_enc(vecs);
    let s = vecs_seq_enc(vecs) + rest;
    assert(s =~= c + (body + rest));
    lemma_compact_round_trip(vecs.len(), body + rest);
    assert(s.skip(c.len() as int) =~= body + rest);
    lemma_vecs_n_round_trip(vecs, rest);
}

proof fn lemma_vecs_body_snoc(vecs: Seq<VecView>, i: int)
    requires
        0 <= i < vecs.len(),
    ensures
        vecs_body_enc(vecs.take(i + 1)) == vecs_body_enc(vecs.take(i)) + msgvec_enc(vecs[i]),
    decreases i,
{
    if i == 0 {
        assert(vecs.take(1).drop_first() =~= Seq::<VecView>::empty());
        assert(vecs.take(1)[0] == vecs[0]);
        assert(vecs.take(0) =~= Seq::<VecView>::empty());
        assert(vecs_body_enc(vecs.take(i + 1)) =~= vecs_body_enc(vecs.take(i)) + msgvec_enc(
            vecs[i],
        ));
    } else {
        let tail = vecs.drop_first();
        lemma_vecs_body_snoc(tail, i - 1);
        assert(vecs.take(i + 1).drop_first() =~= tail.take(i));
        assert(vecs.take(i).drop_first() =~= tail.take(i - 1));
        assert(vecs.take(i + 1)[0] == vecs[0]);
        assert(vecs.take(i)[0] == vecs[0]);
        assert(tail[i - 1] == vecs[i]);
        assert(msgvec_enc(vecs[0]) + (vecs_body_enc(tail.take(i - 1)) + msgvec_enc(vecs[i])) =~= (
        msgvec_enc(vecs[0]) + vecs_body_enc(tail.take(i - 1))) + msgvec_enc(vecs[i]));
    }
}

/// Appends a count-prefixed sequence of Array Records to `out`.
pub(crate) fn encode_vecs(out: &mut Vec<u8>, vecs: &Vec<MessageVec>)
    requires
        vecs_encodable(vecs.deep_view()),
    ensures
        final(out)@ == old(out)@ + vecs_seq_enc(vecs.deep_view()),
{
    let ghost vv = vecs.deep_view();
    proof {
        assert(vv.len() == vecs@.len());
    }
    encode_compact(out, vecs.len() as u32);
    let mut i: usize = 0;
    proof {
        assert(vecs_body_enc(vv.take(0)) =~= Seq::<u8>::empty());
        assert(out@ =~= old(out)@ + compact_bytes(vv.len()) + vecs_body_enc(vv.take(0)));
    }
    while i < vecs.len()
        invariant
            i <= vecs.len(),
            vv == vecs.deep_view(),
            vecs_encodable(vv),
            vv.len() == vecs@.len(),
            out@ == old(out)@ + compact_bytes(vv.len()) + vecs_body_enc(vv.take(i as int)),
        decreases vecs.len() - i,
    {
        let mv: &MessageVec = &vecs[i];
        proof {
            assert(mv@ == vv[i as int]);
        }
        mv.encode_to(out);
        proof {
            lemma_vecs_body_snoc(vv, i as int);
            assert(out@ =~= old(out)@ + compact_bytes(vv.len()) + vecs_body_enc(vv.take(i + 1)));
        }
        i = i + 1;
    }
    proof {
        assert(vv.take(vv.len() as int) =~= vv);
        assert(out@ =~= old(out)@ + vecs_seq_enc(vv));
    }
}

/// Reads a count-prefixed sequence of Array Records at `pos`.
pub(crate) fn decode_vecs(s: &[u8], pos: usize) -> (r: Result<
    (Vec<MessageVec>, usize),
    CodecError,
>)
    requires
        pos <= s@.len(),
    ensures
        (match r {
            Ok(v) => parse_vecs(s@.skip(pos as int)) == Ok::<(Seq<VecView>, nat), CodecError>(
                (v.0.deep_view(), (v.1 - pos) as nat),
            ) && pos <= v.1 <= s@.len(),
            Err(e) => parse_vecs(s@.skip(pos as int)) == Err::<(Seq<VecView>, nat), CodecError>(
                e,
            ),
        }),
{
    let ghost t = s@.skip(pos as int);
    let (count32, p1) = match decode_compact(s, pos) {
        Ok(v) => v,
        Err(e) => {
            return Err(e);
        },
    };
    let count = count32 as usize;
    let mut acc: Vec<MessageVec> = Vec::new();
    let mut p: usize = p1;
    let mut i: usize = 0;
    proof {
        assert(acc.deep_view() =~= Seq::<VecView>::empty());
        assert(t.skip((p1 - pos) as int) =~= t.skip((p - pos) as int));
    }
    while i < count
        invariant
            i <= count,
            pos <= p1 <= p <= s@.len(),
            t == s@.skip(pos as int),
            acc.deep_view().len() == i,
            parse_compact(t) == Ok::<(nat, nat), CodecError>((count as nat, (p1 - pos) as nat)),
            parse_vecs_n(t.skip((p1 - pos) as int), count as nat) == (match parse_vecs_n(
                t.skip((p - pos) as int),
                (count - i) as nat,
            ) {
                Ok((tail, m)) => Ok::<(Seq<VecView>, nat), CodecError>(
                    (acc.deep_view() + tail, ((p - p1) as nat + m)),
                ),
                Err(e) => Err(e),
            }),
        decreases count - i,
    {
        let ghost prev = acc.deep_view();
        let ghost cur = t.skip((p - pos) as int);
        proof {
            assert(s@.skip(p as int) =~= cur);
        }
        let (mv, p2) = match MessageVec::decode_from(s, p) {
            Ok(v) => v,
            Err(e) => {
                proof {
                    assert(parse_vecs_n(cur, (count - i) as nat) == Err::<
                        (Seq<VecView>, nat),
                        CodecError,
                    >(e));
                    assert(parse_vecs_n(t.skip((p1 - pos) as int), count as nat) == Err::<
                        (Seq<VecView>, nat),
                        CodecError,
                    >(e));
                    assert(parse_vecs(t) == Err::<(Seq<VecView>, nat), CodecError>(e));
                }
                return Err(e);
            },
        };
        proof {
            let k = (count - i) as nat;
            assert(cur.skip((p2 - p) as int) =~= t.skip((p2 - pos) as int));
            let res = parse_vecs_n(t.skip((p2 - pos) as int), (k - 1) as nat);
            assert(parse_vecs_n(cur, k) == (match res {
                Ok((tail2, m2)) => Ok::<(Seq<VecView>, nat), CodecError>(
                    (seq![mv@] + tail2, ((p2 - p) as nat + m2)),
                ),
                Err(e) => Err(e),
            }));
            if res is Ok {
                let (tail2, m2) = res->Ok_0;
                assert(prev + (seq![mv@] + tail2) =~= prev.push(mv@) + tail2);
            }
        }
        acc.push(mv);
        p = p2;
        i = i + 1;
        proof {
            assert(acc.deep_view() =~~= prev.push(mv@));
        }
    }
    proof {
        let done = t.skip((p - pos) as int);
        assert(parse_vecs_n(done, 0) == Ok::<(Seq<VecView>, nat), CodecError>(
            (Seq::<VecView>::empty(), 0nat),
        ));
        assert(acc.deep_view() + Seq::<VecView>::empty() =~= acc.deep_view());
    }
    Ok((acc, p))
}

} // verus!
