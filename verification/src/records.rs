use vstd::prelude::*;
use crate::tag::{MsgType, tag_code};
use crate::wire::{
    buf_enc, compact_bytes, decode_buf, decode_compact, decode_id, decode_tag, encode_buf,
    encode_compact, encode_id, le_bytes, lemma_buf_round_trip, lemma_compact_round_trip,
    lemma_id_round_trip, lemma_tag_round_trip, parse_buf, parse_compact, parse_id, parse_tag,
    CodecError,
};

verus! {

/// The mathematical shape of a [`MessageItem`]: identifier, tag, and the
/// value's own serialized bytes.
#[verifier::ext_equal]
pub struct ItemView {
    pub n: u128,
    pub t: MsgType,
    pub v: Seq<u8>,
}

/// The mathematical shape of a [`MessageVec`]: identifier, element tag,
/// and one byte buffer per element.
#[verifier::ext_equal]
pub struct VecView {
    pub n: u128,
    pub t: MsgType,
    pub v: Seq<Seq<u8>>,
}

/// A single tagged value: a unique identifier `n`, the value's kind `t`,
/// and the value's own serialized form `v`.  The codec never checks that
/// `v` is a legal encoding for `t`; that burden is the producer's.
///
/// Two items are equal iff their identifiers are equal: equality is used
/// only to detect duplicates inside a payload, never to compare contents.
#[derive(Debug, Clone)]
pub struct MessageItem {
    pub n: u128,
    pub t: MsgType,
    pub v: Vec<u8>,
}

/// A tagged array of values: a unique identifier `n`, the element kind
/// `t`, and one opaque byte buffer per element.  Equality is by
/// identifier alone, as for [`MessageItem`].
#[derive(Debug, Clone)]
pub struct MessageVec {
    pub n: u128,
    pub t: MsgType,
    pub v: Vec<Vec<u8>>,
}

impl View for MessageItem {
    type V = ItemView;

    open spec fn view(&self) -> ItemView {
        ItemView { n: self.n, t: self.t, v: self.v@ }
    }
}

impl DeepView for MessageItem {
    type V = ItemView;

    open spec fn deep_view(&self) -> ItemView {
        self@
    }
}

impl View for MessageVec {
    type V = VecView;

    open spec fn view(&self) -> VecView {
        VecView { n: self.n, t: self.t, v: self.v.deep_view() }
    }
}

impl DeepView for MessageVec {
    type V = VecView;

    open spec fn deep_view(&self) -> VecView {
        self@
    }
}

impl PartialEq for MessageItem {
    /// Identity-only equality: two items are the same entry iff their
    /// identifiers match, whatever their tags or bytes.
    fn eq(&self, other: &MessageItem) -> (r: bool) {
        self.n == other.n
    }
}

impl vstd::std_specs::cmp::PartialEqSpecImpl for MessageItem {
    open spec fn obeys_eq_spec() -> bool {
        true
    }

    open spec fn eq_spec(&self, other: &MessageItem) -> bool {
        self.n == other.n
    }
}

impl PartialEq for MessageVec {
    /// Identity-only equality, as for [`MessageItem`].
    fn eq(&self, other: &MessageVec) -> (r: bool) {
        self.n == other.n
    }
}

impl vstd::std_specs::cmp::PartialEqSpecImpl for MessageVec {
    open spec fn obeys_eq_spec() -> bool {
        true
    }

    open spec fn eq_spec(&self, other: &MessageVec) -> bool {
        self.n == other.n
    }
}

// ---------------------------------------------------------------------
// wire form of a Value Record
// ---------------------------------------------------------------------

/// An item's bytes fit the wire's 32-bit length domain.
pub open spec fn item_encodable(it: ItemView) -> bool {
    it.v.len() < 0x1_0000_0000
}

/// The wire form of a Value Record: identifier, tag byte, then the
/// length-prefixed value buffer.
pub open spec fn item_enc(it: ItemView) -> Seq<u8> {
    le_bytes(it.n as nat, 16) + seq![tag_code(it.t)] + buf_enc(it.v)
}

/// Reads a Value Record from the front of `s`.
pub open spec fn parse_item(s: Seq<u8>) -> Result<(ItemView, nat), CodecError> {
    match parse_id(s) {
        Err(e) => Err(e),
        Ok((n, c1)) => match parse_tag(s.skip(c1 as int)) {
            Err(e) => Err(e),
            Ok((t, c2)) => match parse_buf(s.skip((c1 + c2) as int)) {
                Err(e) => Err(e),
                Ok((v, c3)) => Ok((ItemView { n: n, t: t, v: v }, c1 + c2 + c3)),
            },
        },
    }
}

/// A Value Record parses back to the record it was encoded from, whatever
/// follows it on the wire.
pub proof fn lemma_item_round_trip(it: ItemView, rest: Seq<u8>)
    requires
        item_encodable(it),
    ensures
        item_enc(it).len() >= 17,
        parse_item(item_enc(it) + rest) == Ok::<(ItemView, nat), CodecError>(
            (it, item_enc(it).len()),
        ),
{
    let idb = le_bytes(it.n as nat, 16);
    let tb = seq![tag_code(it.t)];
    let vb = buf_enc(it.v);
    let s = item_enc(it) + rest;
    assert(s =~= idb + (tb + (vb + rest)));
    lemma_id_round_trip(it.n, tb + (vb + rest));
    assert(s.skip(16) =~= tb + (vb + rest));
    lemma_tag_round_trip(it.t, vb + rest);
    assert(s.skip(17) =~= vb + rest);
    lemma_buf_round_trip(it.v, rest);
    assert(parse_item(s) == Ok::<(ItemView, nat), CodecError>(
        (ItemView { n: it.n, t: it.t, v: it.v }, 17 + vb.len()),
    ));
    assert(ItemView { n: it.n, t: it.t, v: it.v } == it);
}

// ---------------------------------------------------------------------
// wire form of an Array Record's buffer sequence
// ---------------------------------------------------------------------

/// Every buffer, and the count of buffers, fits the wire's 32-bit length
/// domain.
pub open spec fn bufs_encodable(bufs: Seq<Seq<u8>>) -> bool {
    &&& bufs.len() < 0x1_0000_0000
    &&& forall|i: int| 0 <= i < bufs.len() ==> bufs[i].len() < 0x1_0000_0000
}

/// The concatenated wire forms of a sequence of byte buffers.
pub open spec fn bufs_body_enc(bufs: Seq<Seq<u8>>) -> Seq<u8>
    decreases bufs.len(),
{
    if bufs.len() == 0 {
        Seq::empty()
    } else {
        buf_enc(bufs[0]) + bufs_body_enc(bufs.drop_first())
    }
}

/// The wire form of a sequence of byte buffers: the count, compact, then
/// each buffer's own wire form.
pub open spec fn bufs_enc(bufs: Seq<Seq<u8>>) -> Seq<u8> {
    compact_bytes(bufs.len()) + bufs_body_enc(bufs)
}

/// Reads exactly `k` length-prefixed buffers from the front of `s`.
pub open spec fn parse_bufs_n(s: Seq<u8>, k: nat) -> Result<(Seq<Seq<u8>>, nat), CodecError>
    decreases k,
{
    if k == 0 {
        Ok((Seq::empty(), 0))
    } else {
        match parse_buf(s) {
            Err(e) => Err(e),
            Ok((b, c)) => match parse_bufs_n(s.skip(c as int), (k - 1) as nat) {
                Err(e) => Err(e),
                Ok((rest, c2)) => Ok((seq![b] + rest, c + c2)),
            },
        }
    }
}

/// Reads a count-prefixed sequence of buffers from the front of `s`.
pub open spec fn parse_bufs(s: Seq<u8>) -> Result<(Seq<Seq<u8>>, nat), CodecError> {
    match parse_compact(s) {
        Err(e) => Err(e),
        Ok((k, c)) => match parse_bufs_n(s.skip(c as int), k) {
            Err(e) => Err(e),
            Ok((bufs, c2)) => Ok((bufs, c + c2)),
        },
    }
}

proof fn lemma_bufs_n_round_trip(bufs: Seq<Seq<u8>>, rest: Seq<u8>)
    requires
        bufs_encodable(bufs),
    ensures
        parse_bufs_n(bufs_body_enc(bufs) + rest, bufs.len()) == Ok::<
            (Seq<Seq<u8>>, nat),
            CodecError,
        >((bufs, bufs_body_enc(bufs).len())),
    decreases bufs.len(),
{
    if bufs.len() == 0 {
        assert(bufs_body_enc(bufs) + rest =~= rest);
        assert(bufs =~= Seq::<Seq<u8>>::empty());
    } else {
        let tail = bufs.drop_first();
        let head_enc = buf_enc(bufs[0]);
        let tail_enc = bufs_body_enc(tail);
        let s = bufs_body_enc(bufs) + rest;
        assert(s =~= head_enc + (tail_enc + rest));
        lemma_buf_round_trip(bufs[0], tail_enc + rest);
        assert(s.skip(head_enc.len() as int) =~= tail_enc + rest);
        assert(forall|i: int| 0 <= i < tail.len() ==> tail[i] == bufs[i + 1]);
        lemma_bufs_n_round_trip(tail, rest);
        assert(seq![bufs[0]] + tail =~= bufs);
    }
}

/// A buffer sequence parses back to the buffers it was encoded from.
pub proof fn lemma_bufs_round_trip(bufs: Seq<Seq<u8>>, rest: Seq<u8>)
    requires
        bufs_encodable(bufs),
    ensures
        bufs_enc(bufs).len() >= 1,
        parse_bufs(bufs_enc(bufs) + rest) == Ok::<(Seq<Seq<u8>>, nat), CodecError>(
            (bufs, bufs_enc(bufs).len()),
        ),
{
    let c = compact_bytes(bufs.len());
    let body = bufs_body_enc(bufs);
    let s = bufs_enc(bufs) + rest;
    assert(s =~= c + (body + rest));
    lemma_compact_round_trip(bufs.len(), body + rest);
    assert(s.skip(c.len() as int) =~= body + rest);
    lemma_bufs_n_round_trip(bufs, rest);
}

/// Extending a buffer sequence by one buffer appends that buffer's wire
/// form: the step the executable encoder takes.
proof fn lemma_bufs_body_snoc(bufs: Seq<Seq<u8>>, i: int)
    requires
        0 <= i < bufs.len(),
    ensures
        bufs_body_enc(bufs.take(i + 1)) == bufs_body_enc(bufs.take(i)) + buf_enc(bufs[i]),
    decreases i,
{
    if i == 0 {
        assert(bufs.take(1).drop_first() =~= Seq::<Seq<u8>>::empty());
        assert(bufs.take(1)[0] == bufs[0]);
        assert(bufs.take(0) =~= Seq::<Seq<u8>>::empty());
        assert(bufs_body_enc(bufs.take(i + 1)) =~= bufs_body_enc(bufs.take(i)) + buf_enc(
            bufs[i],
        ));
    } else {
        let tail = bufs.drop_first();
        lemma_bufs_body_snoc(tail, i - 1);
        assert(bufs.take(i + 1).drop_first() =~= tail.take(i));
        assert(bufs.take(i).drop_first() =~= tail.take(i - 1));
        assert(bufs.take(i + 1)[0] == bufs[0]);
        assert(bufs.take(i)[0] == bufs[0]);
        assert(tail[i - 1] == bufs[i]);
        assert(buf_enc(bufs[0]) + (bufs_body_enc(tail.take(i - 1)) + buf_enc(bufs[i])) =~= (
        buf_enc(bufs[0]) + bufs_body_enc(tail.take(i - 1))) + buf_enc(bufs[i]));
    }
}

/// Appends a count-prefixed sequence of length-prefixed buffers to `out`.
pub(crate) fn encode_bufs(out: &mut Vec<u8>, bufs: &Vec<Vec<u8>>)
    requires
        bufs_encodable(bufs.deep_view()),
    ensures
        final(out)@ == old(out)@ + bufs_enc(bufs.deep_view()),
{
    let ghost bv = bufs.deep_view();
    proof {
        assert(bv.len() == bufs@.len());
    }
    encode_compact(out, bufs.len() as u32);
    let mut i: usize = 0;
    proof {
        assert(bufs_body_enc(bv.take(0)) =~= Seq::<u8>::empty());
        assert(out@ =~= old(out)@ + compact_bytes(bv.len()) + bufs_body_enc(bv.take(0)));
    }
    while i < bufs.len()
        invariant
            i <= bufs.len(),
            bv == bufs.deep_view(),
            bufs_encodable(bv),
            bv.len() == bufs@.len(),
            out@ == old(out)@ + compact_bytes(bv.len()) + bufs_body_enc(bv.take(i as int)),
        decreases bufs.len() - i,
    {
        let b: &Vec<u8> = &bufs[i];
        proof {
            assert(b@ =~= bv[i as int]);
        }
        encode_buf(out, b);
        proof {
            lemma_bufs_body_snoc(bv, i as int);
            assert(out@ =~= old(out)@ + compact_bytes(bv.len()) + bufs_body_enc(
                bv.take(i + 1),
            ));
        }
        i = i + 1;
    }
    proof {
        assert(bv.take(bv.len() as int) =~= bv);
        assert(out@ =~= old(out)@ + bufs_enc(bv));
    }
}

/// Reads a count-prefixed sequence of length-prefixed buffers at `pos`.
pub(crate) fn decode_bufs(s: &[u8], pos: usize) -> (r: Result<
    (Vec<Vec<u8>>, usize),
    CodecError,
>)
    requires
        pos <= s@.len(),
    ensures
        (match r {
            Ok(v) => parse_bufs(s@.skip(pos as int)) == Ok::<(Seq<Seq<u8>>, nat), CodecError>(
                (v.0.deep_view(), (v.1 - pos) as nat),
            ) && pos <= v.1 <= s@.len(),
            Err(e) => parse_bufs(s@.skip(pos as int)) == Err::<(Seq<Seq<u8>>, nat), CodecError>(
                e,
            ),
        }),
{
    let ghost t = s@.skip(pos as int);
    let (count32, p1) = match decode_compact(s, pos) {
        Ok(v) => v,
        Err(e) => {
            return Err(e);
        },
    };
    let count = count32 as usize;
    let mut acc: Vec<Vec<u8>> = Vec::new();
    let mut p: usize = p1;
    let mut i: usize = 0;
    proof {
        assert(acc.deep_view() =~= Seq::<Seq<u8>>::empty());
        assert(t.skip((p1 - pos) as int) =~= t.skip((p - pos) as int));
    }
    while i < count
        invariant
            i <= count,
            pos <= p1 <= p <= s@.len(),
            t == s@.skip(pos as int),
            acc.deep_view().len() == i,
            parse_compact(t) == Ok::<(nat, nat), CodecError>(
                (count as nat, (p1 - pos) as nat),
            ),
            parse_bufs_n(t.skip((p1 - pos) as int), count as nat) == (match parse_bufs_n(
                t.skip((p - pos) as int),
                (count - i) as nat,
            ) {
                Ok((tail, m)) => Ok::<(Seq<Seq<u8>>, nat), CodecError>(
                    (acc.deep_view() + tail, ((p - p1) as nat + m)),
                ),
                Err(e) => Err(e),
            }),
        decreases count - i,
    {
        let ghost prev = acc.deep_view();
        let ghost cur = t.skip((p - pos) as int);
        proof {
            assert(s@.skip(p as int) =~= cur);
        }
        let (b, p2) = match decode_buf(s, p) {
            Ok(v) => v,
            Err(e) => {
                proof {
                    assert(parse_bufs_n(cur, (count - i) as nat) == Err::<
                        (Seq<Seq<u8>>, nat),
                        CodecError,
                    >(e));
                    assert(parse_bufs_n(t.skip((p1 - pos) as int), count as nat) == Err::<
                        (Seq<Seq<u8>>, nat),
                        CodecError,
                    >(e));
                    assert(parse_bufs(t) == Err::<(Seq<Seq<u8>>, nat), CodecError>(e));
                }
                return Err(e);
            },
        };
        proof {
            let k = (count - i) as nat;
            assert(cur.skip((p2 - p) as int) =~= t.skip((p2 - pos) as int));
            let res = parse_bufs_n(t.skip((p2 - pos) as int), (k - 1) as nat);
            assert(parse_bufs_n(cur, k) == (match res {
                Ok((tail2, m2)) => Ok::<(Seq<Seq<u8>>, nat), CodecError>(
                    (seq![b@] + tail2, ((p2 - p) as nat + m2)),
                ),
                Err(e) => Err(e),
            }));
            if res is Ok {
                let (tail2, m2) = res->Ok_0;
                assert(prev + (seq![b@] + tail2) =~= prev.push(b@) + tail2);
            }
        }
        acc.push(b);
        p = p2;
        i = i + 1;
        proof {
            assert(acc.deep_view() =~~= prev.push(b@));
        }
    }
    proof {
        let done = t.skip((p - pos) as int);
        assert(parse_bufs_n(done, 0) == Ok::<(Seq<Seq<u8>>, nat), CodecError>(
            (Seq::<Seq<u8>>::empty(), 0nat),
        ));
        assert(acc.deep_view() + Seq::<Seq<u8>>::empty() =~= acc.deep_view());
    }
    Ok((acc, p))
}

// ---------------------------------------------------------------------
// wire form of an Array Record
// ---------------------------------------------------------------------

/// An Array Record's buffers fit the wire's 32-bit length domain.
pub open spec fn vec_encodable(mv: VecView) -> bool {
    bufs_encodable(mv.v)
}

/// The wire form of an Array Record: identifier, element tag byte, then
/// the count-prefixed sequence of buffers.
pub open spec fn msgvec_enc(mv: VecView) -> Seq<u8> {
    le_bytes(mv.n as nat, 16) + seq![tag_code(mv.t)] + bufs_enc(mv.v)
}

/// Reads an Array Record from the front of `s`.
pub open spec fn parse_msgvec(s: Seq<u8>) -> Result<(VecView, nat), CodecError> {
    match parse_id(s) {
        Err(e) => Err(e),
        Ok((n, c1)) => match parse_tag(s.skip(c1 as int)) {
            Err(e) => Err(e),
            Ok((t, c2)) => match parse_bufs(s.skip((c1 + c2) as int)) {
                Err(e) => Err(e),
                Ok((v, c3)) => Ok((VecView { n: n, t: t, v: v }, c1 + c2 + c3)),
            },
        },
    }
}

/// An Array Record parses back to the record it was encoded from,
/// whatever follows it on the wire.
pub proof fn lemma_msgvec_round_trip(mv: VecView, rest: Seq<u8>)
    requires
        vec_encodable(mv),
    ensures
        msgvec_enc(mv).len() >= 17,
        parse_msgvec(msgvec_enc(mv) + rest) == Ok::<(VecView, nat), CodecError>(
            (mv, msgvec_enc(mv).len()),
        ),
{
    let idb = le_bytes(mv.n as nat, 16);
    let tb = seq![tag_code(mv.t)];
    let vb = bufs_enc(mv.v);
    let s = msgvec_enc(mv) + rest;
    assert(s =~= idb + (tb + (vb + rest)));
    lemma_id_round_trip(mv.n, tb + (vb + rest));
    assert(s.skip(16) =~= tb + (vb + rest));
    lemma_tag_round_trip(mv.t, vb + rest);
    assert(s.skip(17) =~= vb + rest);
    lemma_bufs_round_trip(mv.v, rest);
    assert(parse_msgvec(s) == Ok::<(VecView, nat), CodecError>(
        (VecView { n: mv.n, t: mv.t, v: mv.v }, 17 + vb.len()),
    ));
    assert(VecView { n: mv.n, t: mv.t, v: mv.v } == mv);
}

// ---------------------------------------------------------------------
// executable record codecs
// ---------------------------------------------------------------------

impl MessageItem {
    /// Appends this record's wire form to `out`.
    pub fn encode_to(&self, out: &mut Vec<u8>)
        requires
            item_encodable(self@),
        ensures
            final(out)@ == old(out)@ + item_enc(self@),
    {
        encode_id(out, self.n);
        out.push(self.t.code());
        encode_buf(out, &self.v);
        proof {
            assert(out@ =~= old(out)@ + item_enc(self@));
        }
    }

    /// This record's wire form: identifier, tag byte, length-prefixed
    /// value buffer.
    pub fn encode(&self) -> (r: Vec<u8>)
        requires
            item_encodable(self@),
        ensures
            r@ == item_enc(self@),
    {
        let mut out: Vec<u8> = Vec::new();
        self.encode_to(&mut out);
        proof {
            assert(out@ =~= item_enc(self@));
        }
        out
    }

    /// Reads one record at `pos`, returning it and the position just past
    /// it.
    pub(crate) fn decode_from(s: &[u8], pos: usize) -> (r: Result<
        (MessageItem, usize),
        CodecError,
    >)
        requires
            pos <= s@.len(),
        ensures
            (match r {
                Ok(v) => parse_item(s@.skip(pos as int)) == Ok::<(ItemView, nat), CodecError>(
                    (v.0@, (v.1 - pos) as nat),
                ) && pos <= v.1 <= s@.len(),
                Err(e) => parse_item(s@.skip(pos as int)) == Err::<(ItemView, nat), CodecError>(
                    e,
                ),
            }),
    {
        let ghost t = s@.skip(pos as int);
        let (n, p1) = match decode_id(s, pos) {
            Ok(v) => v,
            Err(e) => {
                return Err(e);
            },
        };
        proof {
            assert(s@.skip(p1 as int) =~= t.skip((p1 - pos) as int));
        }
        let (tg, p2) = match decode_tag(s, p1) {
            Ok(v) => v,
            Err(e) => {
                return Err(e);
            },
        };
        proof {
            assert(s@.skip(p2 as int) =~= t.skip((p2 - pos) as int));
        }
        let (v, p3) = match decode_buf(s, p2) {
            Ok(v) => v,
            Err(e) => {
                return Err(e);
            },
        };
        Ok((MessageItem { n: n, t: tg, v: v }, p3))
    }

    /// Decodes one record from the front of `bytes`; bytes past the
    /// record are ignored, as the reference codec ignores them.
    pub fn decode(bytes: &[u8]) -> (r: Result<MessageItem, CodecError>)
        ensures
            (match r {
                Ok(v) => (match parse_item(bytes@) {
                    Ok(p) => v@ == p.0,
                    Err(_) => false,
                }),
                Err(e) => parse_item(bytes@) == Err::<(ItemView, nat), CodecError>(e),
            }),
    {
        proof {
            assert(bytes@.skip(0) =~= bytes@);
        }
        match MessageItem::decode_from(bytes, 0) {
            Ok(v) => Ok(v.0),
            Err(e) => Err(e),
        }
    }
}

impl MessageVec {
    /// Appends this record's wire form to `out`.
    pub fn encode_to(&self, out: &mut Vec<u8>)
        requires
            vec_encodable(self@),
        ensures
            final(out)@ == old(out)@ + msgvec_enc(self@),
    {
        encode_id(out, self.n);
        out.push(self.t.code());
        encode_bufs(out, &self.v);
        proof {
            assert(out@ =~= old(out)@ + msgvec_enc(self@));
        }
    }

    /// This record's wire form: identifier, element tag byte,
    /// count-prefixed buffers.
    pub fn encode(&self) -> (r: Vec<u8>)
        requires
            vec_encodable(self@),
        ensures
            r@ == msgvec_enc(self@),
    {
        let mut out: Vec<u8> = Vec::new();
        self.encode_to(&mut out);
        proof {
            assert(out@ =~= msgvec_enc(self@));
        }
        out
    }

    /// Reads one record at `pos`, returning it and the position just past
    /// it.
    pub(crate) fn decode_from(s: &[u8], pos: usize) -> (r: Result<
        (MessageVec, usize),
        CodecError,
    >)
        requires
            pos <= s@.len(),
        ensures
            (match r {
                Ok(v) => parse_msgvec(s@.skip(pos as int)) == Ok::<(VecView, nat), CodecError>(
                    (v.0@, (v.1 - pos) as nat),
                ) && pos <= v.1 <= s@.len(),
                Err(e) => parse_msgvec(s@.skip(pos as int)) == Err::<(VecView, nat), CodecError>(
                    e,
                ),
            }),
    {
        let ghost t = s@.skip(pos as int);
        let (n, p1) = match decode_id(s, pos) {
            Ok(v) => v,
            Err(e) => {
                return Err(e);
            },
        };
        proof {
            assert(s@.skip(p1 as int) =~= t.skip((p1 - pos) as int));
        }
        let (tg, p2) = match decode_tag(s, p1) {
            Ok(v) => v,
            Err(e) => {
                return Err(e);
            },
        };
        proof {
            assert(s@.skip(p2 as int) =~= t.skip((p2 - pos) as int));
        }
        let (v, p3) = match decode_bufs(s, p2) {
            Ok(v) => v,
            Err(e) => {
                return Err(e);
            },
        };
        Ok((MessageVec { n: n, t: tg, v: v }, p3))
    }

    /// Decodes one record from the front of `bytes`; bytes past the
    /// record are ignored, as the reference codec ignores them.
    pub fn decode(bytes: &[u8]) -> (r: Result<MessageVec, CodecError>)
        ensures
            (match r {
                Ok(v) => (match parse_msgvec(bytes@) {
                    Ok(p) => v@ == p.0,
                    Err(_) => false,
                }),
                Err(e) => parse_msgvec(bytes@) == Err::<(VecView, nat), CodecError>(e),
            }),
    {
        proof {
            assert(bytes@.skip(0) =~= bytes@);
        }
        match MessageVec::decode_from(bytes, 0) {
            Ok(v) => Ok(v.0),
            Err(e) => Err(e),
        }
    }
}

} // verus!
