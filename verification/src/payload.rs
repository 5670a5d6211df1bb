use vstd::prelude::*;
use vstd::slice::slice_index_get;
use crate::records::{ItemView, MessageItem, MessageVec, VecView};
use crate::seqs::{
    decode_items, decode_vecs, encode_items, encode_vecs, items_encodable, items_seq_enc,
    lemma_items_seq_round_trip, lemma_vecs_seq_round_trip, parse_items, parse_vecs,
    vecs_encodable, vecs_seq_enc,
};
use crate::wire::CodecError;

verus! {

/// The mathematical shape of a [`MessagePayload`]: two independent,
/// optional, ordered collections of records.
#[verifier::ext_equal]
pub struct PayloadView {
    pub items: Option<Seq<ItemView>>,
    pub vecs: Option<Seq<VecView>>,
}

/// The aggregate a producer builds by repeated insertion and ships as
/// bytes: an optional ordered collection of Value Records and an optional
/// ordered collection of Array Records.  Each collection is absent until
/// the first successful insertion into it and never reverts to absent;
/// there is no removal operation.
///
/// Within each collection identifiers are unique; the two collections'
/// identifier namespaces are independent.  Uniqueness is enforced only on
/// the insertion path: decoding trusts the byte stream and will happily
/// produce a container whose collections carry duplicate identifiers.
#[derive(Debug)]
pub struct MessagePayload {
    pub items: Option<Vec<MessageItem>>,
    pub vecs: Option<Vec<MessageVec>>,
}

impl View for MessagePayload {
    type V = PayloadView;

    open spec fn view(&self) -> PayloadView {
        PayloadView { items: self.items.deep_view(), vecs: self.vecs.deep_view() }
    }
}

// ---------------------------------------------------------------------
// the container's model
// ---------------------------------------------------------------------

/// Some record in `s` carries the identifier `id`.
pub open spec fn seq_has_item_id(s: Seq<ItemView>, id: u128) -> bool {
    exists|i: int| 0 <= i < s.len() && s[i].n == id
}

/// Some record in `s` carries the identifier `id`.
pub open spec fn seq_has_vec_id(s: Seq<VecView>, id: u128) -> bool {
    exists|i: int| 0 <= i < s.len() && s[i].n == id
}

/// An absent collection holds nothing.
pub open spec fn opt_has_item_id(o: Option<Seq<ItemView>>, id: u128) -> bool {
    match o {
        None => false,
        Some(s) => seq_has_item_id(s, id),
    }
}

pub open spec fn opt_has_vec_id(o: Option<Seq<VecView>>, id: u128) -> bool {
    match o {
        None => false,
        Some(s) => seq_has_vec_id(s, id),
    }
}

/// An absent collection, read as the empty sequence.
pub open spec fn opt_item_seq(o: Option<Seq<ItemView>>) -> Seq<ItemView> {
    match o {
        None => Seq::empty(),
        Some(s) => s,
    }
}

pub open spec fn opt_vec_seq(o: Option<Seq<VecView>>) -> Seq<VecView> {
    match o {
        None => Seq::empty(),
        Some(s) => s,
    }
}

/// The first record in `s` carrying the identifier `id`, in insertion
/// order.
pub open spec fn find_item(s: Seq<ItemView>, id: u128) -> Option<ItemView>
    decreases s.len(),
{
    if s.len() == 0 {
        None
    } else if s[0].n == id {
        Some(s[0])
    } else {
        find_item(s.drop_first(), id)
    }
}

pub open spec fn find_vec(s: Seq<VecView>, id: u128) -> Option<VecView>
    decreases s.len(),
{
    if s.len() == 0 {
        None
    } else if s[0].n == id {
        Some(s[0])
    } else {
        find_vec(s.drop_first(), id)
    }
}

pub open spec fn opt_find_item(o: Option<Seq<ItemView>>, id: u128) -> Option<ItemView> {
    find_item(opt_item_seq(o), id)
}

pub open spec fn opt_find_vec(o: Option<Seq<VecView>>, id: u128) -> Option<VecView> {
    find_vec(opt_vec_seq(o), id)
}

/// No two records of `s` share an identifier.
pub open spec fn unique_item_ids(s: Seq<ItemView>) -> bool {
    forall|i: int, j: int| 0 <= i < j < s.len() ==> s[i].n != s[j].n
}

pub open spec fn unique_vec_ids(s: Seq<VecView>) -> bool {
    forall|i: int, j: int| 0 <= i < j < s.len() ==> s[i].n != s[j].n
}

/// The container's invariant on the insertion path: identifiers are
/// unique within each collection.  The decode path does not re-establish
/// it.
pub open spec fn payload_wf(p: PayloadView) -> bool {
    &&& unique_item_ids(opt_item_seq(p.items))
    &&& unique_vec_ids(opt_vec_seq(p.vecs))
}

// ---------------------------------------------------------------------
// wire form of the whole payload
// ---------------------------------------------------------------------

/// The wire form of an optional collection: a presence byte, then, only
/// when present, the collection's own wire form.
pub open spec fn opt_items_enc(o: Option<Seq<ItemView>>) -> Seq<u8> {
    match o {
        None => seq![0u8],
        Some(s) => seq![1u8] + items_seq_enc(s),
    }
}

pub open spec fn opt_vecs_enc(o: Option<Seq<VecView>>) -> Seq<u8> {
    match o {
        None => seq![0u8],
        Some(s) => seq![1u8] + vecs_seq_enc(s),
    }
}

/// The wire form of a whole payload: its items, then its vecs, each as an
/// optional collection.
pub open spec fn payload_enc(p: PayloadView) -> Seq<u8> {
    opt_items_enc(p.items) + opt_vecs_enc(p.vecs)
}

/// Every collection of the payload fits the wire's 32-bit length domain.
pub open spec fn payload_encodable(p: PayloadView) -> bool {
    &&& (match p.items {
        None => true,
        Some(s) => items_encodable(s),
    })
    &&& (match p.vecs {
        None => true,
        Some(s) => vecs_encodable(s),
    })
}

/// Reads an optional collection of Value Records from the front of `s`.
/// A presence byte other than 0 or 1 is reported as `InvalidDiscriminant`.
pub open spec fn parse_opt_items(s: Seq<u8>) -> Result<
    (Option<Seq<ItemView>>, nat),
    CodecError,
> {
    if s.len() < 1 {
        Err(CodecError::TruncatedInput)
    } else if s[0] == 0 {
        Ok((None, 1))
    } else if s[0] == 1 {
        match parse_items(s.skip(1)) {
            Err(e) => Err(e),
            Ok((items, c)) => Ok((Some(items), 1 + c)),
        }
    } else {
        Err(CodecError::InvalidDiscriminant)
    }
}

pub open spec fn parse_opt_vecs(s: Seq<u8>) -> Result<(Option<Seq<VecView>>, nat), CodecError> {
    if s.len() < 1 {
        Err(CodecError::TruncatedInput)
    } else if s[0] == 0 {
        Ok((None, 1))
    } else if s[0] == 1 {
        match parse_vecs(s.skip(1)) {
            Err(e) => Err(e),
            Ok((vecs, c)) => Ok((Some(vecs), 1 + c)),
        }
    } else {
        Err(CodecError::InvalidDiscriminant)
    }
}

/// Reads a whole payload from the front of `s`.
pub open spec fn parse_payload(s: Seq<u8>) -> Result<(PayloadView, nat), CodecError> {
    match parse_opt_items(s) {
        Err(e) => Err(e),
        Ok((items, c1)) => match parse_opt_vecs(s.skip(c1 as int)) {
            Err(e) => Err(e),
            Ok((vecs, c2)) => Ok((PayloadView { items: items, vecs: vecs }, c1 + c2)),
        },
    }
}

// ---------------------------------------------------------------------
// laws
// ---------------------------------------------------------------------

/// Round trip: a payload's wire form parses back to that very payload,
/// collections, records, bytes and insertion order all preserved.
pub proof fn lemma_payload_round_trip(p: PayloadView)
    requires
        payload_encodable(p),
    ensures
        parse_payload(payload_enc(p)) == Ok::<(PayloadView, nat), CodecError>(
            (p, payload_enc(p).len()),
        ),
{
    let ia = opt_items_enc(p.items);
    let va = opt_vecs_enc(p.vecs);
    let s = payload_enc(p);
    assert(s =~= ia + va);
    match p.items {
        None => {
            assert(s[0] == 0u8);
            assert(parse_opt_items(s) == Ok::<(Option<Seq<ItemView>>, nat), CodecError>(
                (None, 1),
            ));
        },
        Some(items) => {
            assert(s[0] == 1u8);
            assert(s.skip(1) =~= items_seq_enc(items) + va);
            lemma_items_seq_round_trip(items, va);
            assert(parse_opt_items(s) == Ok::<(Option<Seq<ItemView>>, nat), CodecError>(
                (Some(items), ia.len() as nat),
            ));
        },
    }
    assert(s.skip(ia.len() as int) =~= va);
    match p.vecs {
        None => {
            assert(va[0] == 0u8);
            assert(parse_opt_vecs(va) == Ok::<(Option<Seq<VecView>>, nat), CodecError>(
                (None, 1),
            ));
        },
        Some(vecs) => {
            assert(va[0] == 1u8);
            assert(va.skip(1) =~= vecs_seq_enc(vecs) + Seq::<u8>::empty());
            lemma_vecs_seq_round_trip(vecs, Seq::empty());
            assert(parse_opt_vecs(va) == Ok::<(Option<Seq<VecView>>, nat), CodecError>(
                (Some(vecs), va.len() as nat),
            ));
        },
    }
    assert(PayloadView { items: p.items, vecs: p.vecs } == p);
}

/// Duplicate rejection: once a record with some identifier is in, a
/// second record with the same identifier is reported as a duplicate, so
/// the second insertion leaves the collection unchanged.
pub proof fn lemma_duplicate_rejected(items: Option<Seq<ItemView>>, r1: ItemView, r2: ItemView)
    requires
        r1.n == r2.n,
        !opt_has_item_id(items, r1.n),
    ensures
        opt_has_item_id(Some(opt_item_seq(items).push(r1)), r2.n),
        opt_item_seq(Some(opt_item_seq(items).push(r1))).len() == opt_item_seq(items).len() + 1,
{
    let s = opt_item_seq(items).push(r1);
    assert(s[s.len() - 1].n == r2.n);
}

/// A record just appended under a fresh identifier is what lookup by that
/// identifier finds.
proof fn lemma_find_pushed_item(s: Seq<ItemView>, it: ItemView)
    requires
        !seq_has_item_id(s, it.n),
    ensures
        find_item(s.push(it), it.n) == Some(it),
    decreases s.len(),
{
    if s.len() == 0 {
        assert(s.push(it)[0] == it);
    } else {
        assert(s.push(it)[0] == s[0]);
        assert(s[0].n != it.n);
        assert(s.push(it).drop_first() =~= s.drop_first().push(it));
        assert(forall|i: int|
            0 <= i < s.drop_first().len() ==> s.drop_first()[i] == s[i + 1]);
        lemma_find_pushed_item(s.drop_first(), it);
    }
}

proof fn lemma_find_pushed_vec(s: Seq<VecView>, mv: VecView)
    requires
        !seq_has_vec_id(s, mv.n),
    ensures
        find_vec(s.push(mv), mv.n) == Some(mv),
    decreases s.len(),
{
    if s.len() == 0 {
        assert(s.push(mv)[0] == mv);
    } else {
        assert(s.push(mv)[0] == s[0]);
        assert(s[0].n != mv.n);
        assert(s.push(mv).drop_first() =~= s.drop_first().push(mv));
        assert(forall|i: int|
            0 <= i < s.drop_first().len() ==> s.drop_first()[i] == s[i + 1]);
        lemma_find_pushed_vec(s.drop_first(), mv);
    }
}

/// Cross-collection independence: the two collections' identifier
/// namespaces are separate, so a Value Record and an Array Record under
/// one identifier both go in, and each lookup finds its own record.
pub proof fn lemma_cross_collection_independence(p: PayloadView, it: ItemView, mv: VecView)
    requires
        it.n == mv.n,
        !opt_has_item_id(p.items, it.n),
        !opt_has_vec_id(p.vecs, mv.n),
    ensures
        opt_find_item(Some(opt_item_seq(p.items).push(it)), it.n) == Some(it),
        opt_find_vec(Some(opt_vec_seq(p.vecs).push(mv)), mv.n) == Some(mv),
{
    lemma_find_pushed_item(opt_item_seq(p.items), it);
    lemma_find_pushed_vec(opt_vec_seq(p.vecs), mv);
}

/// Order preservation: a successful insertion appends at the end and
/// moves no earlier record, whatever the records' tags or contents.
pub proof fn lemma_insertion_order(items: Option<Seq<ItemView>>, it: ItemView)
    requires
        !opt_has_item_id(items, it.n),
    ensures
        ({
            let s = opt_item_seq(items);
            let s2 = opt_item_seq(Some(s.push(it)));
            &&& s2.len() == s.len() + 1
            &&& s2[s.len() as int] == it
            &&& forall|j: int| 0 <= j < s.len() ==> s2[j] == s[j]
        }),
{
}

// ---------------------------------------------------------------------
// identity-only equality of whole payloads
// ---------------------------------------------------------------------

/// Position-wise identity equality of two record sequences.
pub open spec fn same_item_ids(x: Seq<ItemView>, y: Seq<ItemView>) -> bool {
    &&& x.len() == y.len()
    &&& forall|i: int| 0 <= i < x.len() ==> x[i].n == y[i].n
}

pub open spec fn same_vec_ids(x: Seq<VecView>, y: Seq<VecView>) -> bool {
    &&& x.len() == y.len()
    &&& forall|i: int| 0 <= i < x.len() ==> x[i].n == y[i].n
}

/// What `==` means on payloads: the same collections are present, equally
/// long, with the same identifiers in the same order.  Records themselves
/// compare by identifier alone, so the payload does too.
pub open spec fn payload_eq_spec(p: PayloadView, q: PayloadView) -> bool {
    &&& (match p.items {
        None => q.items is None,
        Some(a) => (match q.items {
            None => false,
            Some(b) => same_item_ids(a, b),
        }),
    })
    &&& (match p.vecs {
        None => q.vecs is None,
        Some(a) => (match q.vecs {
            None => false,
            Some(b) => same_vec_ids(a, b),
        }),
    })
}

fn items_ids_eq(a: &Vec<MessageItem>, b: &Vec<MessageItem>) -> (r: bool)
    ensures
        r == same_item_ids(a.deep_view(), b.deep_view()),
{
    if a.len() != b.len() {
        return false;
    }
    let mut i: usize = 0;
    while i < a.len()
        invariant
            i <= a.len(),
            a@.len() == b@.len(),
            forall|j: int| 0 <= j < i ==> a.deep_view()[j].n == b.deep_view()[j].n,
        decreases a.len() - i,
    {
        if a[i].n != b[i].n {
            proof {
                assert(a.deep_view()[i as int].n != b.deep_view()[i as int].n);
            }
            return false;
        }
        i = i + 1;
    }
    true
}

fn vecs_ids_eq(a: &Vec<MessageVec>, b: &Vec<MessageVec>) -> (r: bool)
    ensures
        r == same_vec_ids(a.deep_view(), b.deep_view()),
{
    if a.len() != b.len() {
        return false;
    }
    let mut i: usize = 0;
    while i < a.len()
        invariant
            i <= a.len(),
            a@.len() == b@.len(),
            forall|j: int| 0 <= j < i ==> a.deep_view()[j].n == b.deep_view()[j].n,
        decreases a.len() - i,
    {
        if a[i].n != b[i].n {
            proof {
                assert(a.deep_view()[i as int].n != b.deep_view()[i as int].n);
            }
            return false;
        }
        i = i + 1;
    }
    true
}

impl PartialEq for MessagePayload {
    /// Structural equality over the two collections, with records
    /// compared by identifier alone.
    fn eq(&self, other: &MessagePayload) -> (r: bool) {
        let items_ok: bool = match &self.items {
            None => other.items.is_none(),
            Some(a) => match &other.items {
                None => false,
                Some(b) => items_ids_eq(a, b),
            },
        };
        if !items_ok {
            return false;
        }
        match &self.vecs {
            None => other.vecs.is_none(),
            Some(a) => match &other.vecs {
                None => false,
                Some(b) => vecs_ids_eq(a, b),
            },
        }
    }
}

impl vstd::std_specs::cmp::PartialEqSpecImpl for MessagePayload {
    open spec fn obeys_eq_spec() -> bool {
        true
    }

    open spec fn eq_spec(&self, other: &MessagePayload) -> bool {
        payload_eq_spec(self@, other@)
    }
}

// ---------------------------------------------------------------------
// duplicate checks
// ---------------------------------------------------------------------

fn contains_item_id(items: &Vec<MessageItem>, id: u128) -> (r: bool)
    ensures
        r == seq_has_item_id(items.deep_view(), id),
{
    let mut i: usize = 0;
    while i < items.len()
        invariant
            i <= items.len(),
            forall|j: int| 0 <= j < i ==> items.deep_view()[j].n != id,
        decreases items.len() - i,
    {
        if items[i].n == id {
            proof {
                assert(items.deep_view()[i as int].n == id);
            }
            return true;
        }
        i = i + 1;
    }
    false
}

fn contains_vec_id(vecs: &Vec<MessageVec>, id: u128) -> (r: bool)
    ensures
        r == seq_has_vec_id(vecs.deep_view(), id),
{
    let mut i: usize = 0;
    while i < vecs.len()
        invariant
            i <= vecs.len(),
            forall|j: int| 0 <= j < i ==> vecs.deep_view()[j].n != id,
        decreases vecs.len() - i,
    {
        if vecs[i].n == id {
            proof {
                assert(vecs.deep_view()[i as int].n == id);
            }
            return true;
        }
        i = i + 1;
    }
    false
}

// ---------------------------------------------------------------------
// the container's operations
// ---------------------------------------------------------------------

impl MessagePayload {
    /// An empty container: both collections absent.
    pub fn new() -> (r: MessagePayload)
        ensures
            r@.items is None,
            r@.vecs is None,
            payload_wf(r@),
    {
        MessagePayload { items: None, vecs: None }
    }

    /// Appends `msg_item` to `items`, materializing the collection on
    /// first use, unless a record with the same identifier is already
    /// there; reports whether the record went in.  `vecs` is untouched.
    pub fn add_item(&mut self, msg_item: MessageItem) -> (r: bool)
        ensures
            r == !opt_has_item_id(old(self)@.items, msg_item.n),
            r ==> final(self)@.items == Some(
                opt_item_seq(old(self)@.items).push(msg_item@),
            ),
            !r ==> final(self)@.items == old(self)@.items,
            final(self)@.vecs == old(self)@.vecs,
            payload_wf(old(self)@) ==> payload_wf(final(self)@),
    {
        let current = self.items.take();
        match current {
            None => {
                let mut one: Vec<MessageItem> = Vec::new();
                one.push(msg_item);
                proof {
                    assert(one.deep_view() =~~= opt_item_seq(old(self)@.items).push(
                        msg_item@,
                    ));
                }
                self.items = Some(one);
                true
            },
            Some(mut items) => {
                if contains_item_id(&items, msg_item.n) {
                    self.items = Some(items);
                    false
                } else {
                    let ghost prev = items.deep_view();
                    items.push(msg_item);
                    proof {
                        assert(items.deep_view() =~~= prev.push(msg_item@));
                        if payload_wf(old(self)@) {
                            assert forall|i: int, j: int|
                                0 <= i < j < items.deep_view().len() implies items.deep_view()[i].n
                                != items.deep_view()[j].n by {
                                if j < prev.len() {
                                    assert(prev[i].n != prev[j].n);
                                } else {
                                    assert(items.deep_view()[i] == prev[i]);
                                    assert(!seq_has_item_id(prev, msg_item.n));
                                    assert(prev[i].n != msg_item.n);
                                }
                            }
                        }
                    }
                    self.items = Some(items);
                    true
                }
            },
        }
    }

    /// The first Value Record carrying `msg_n`, in insertion order, or
    /// `None` if none does or the collection is absent.
    pub fn get_item(&self, msg_n: u128) -> (r: Option<&MessageItem>)
        ensures
            (match r {
                Some(it) => opt_find_item(self@.items, msg_n) == Some(it@),
                None => opt_find_item(self@.items, msg_n) is None,
            }),
    {
        match &self.items {
            None => None,
            Some(items) => {
                let ghost iv = items.deep_view();
                proof {
                    assert(iv.skip(0) =~= iv);
                }
                let mut i: usize = 0;
                while i < items.len()
                    invariant
                        i <= items.len(),
                        iv == items.deep_view(),
                        iv.len() == items@.len(),
                        self@.items == Some(iv),
                        find_item(iv, msg_n) == find_item(iv.skip(i as int), msg_n),
                    decreases items.len() - i,
                {
                    if items[i].n == msg_n {
                        proof {
                            assert(iv.skip(i as int)[0] == iv[i as int]);
                            assert(find_item(iv.skip(i as int), msg_n) == Some(iv[i as int]));
                            assert(items@[i as int]@ == iv[i as int]);
                        }
                        return Some(&items[i]);
                    }
                    proof {
                        assert(iv.skip(i as int)[0] == iv[i as int]);
                        assert(iv.skip(i as int).drop_first() =~= iv.skip(i + 1));
                    }
                    i = i + 1;
                }
                proof {
                    assert(iv.skip(iv.len() as int).len() == 0);
                    assert(find_item(iv.skip(iv.len() as int), msg_n) is None);
                }
                None
            },
        }
    }

    /// Appends `msg_vec` to `vecs` under the same contract as
    /// [`MessagePayload::add_item`]; the two collections are independent.
    pub fn add_vec(&mut self, msg_vec: MessageVec) -> (r: bool)
        ensures
            r == !opt_has_vec_id(old(self)@.vecs, msg_vec.n),
            r ==> final(self)@.vecs == Some(opt_vec_seq(old(self)@.vecs).push(msg_vec@)),
            !r ==> final(self)@.vecs == old(self)@.vecs,
            final(self)@.items == old(self)@.items,
            payload_wf(old(self)@) ==> payload_wf(final(self)@),
    {
        let current = self.vecs.take();
        match current {
            None => {
                let mut one: Vec<MessageVec> = Vec::new();
                one.push(msg_vec);
                proof {
                    assert(one.deep_view() =~~= opt_vec_seq(old(self)@.vecs).push(msg_vec@));
                }
                self.vecs = Some(one);
                true
            },
            Some(mut vecs) => {
                if contains_vec_id(&vecs, msg_vec.n) {
                    self.vecs = Some(vecs);
                    false
                } else {
                    let ghost prev = vecs.deep_view();
                    vecs.push(msg_vec);
                    proof {
                        assert(vecs.deep_view() =~~= prev.push(msg_vec@));
                        if payload_wf(old(self)@) {
                            assert forall|i: int, j: int|
                                0 <= i < j < vecs.deep_view().len() implies vecs.deep_view()[i].n
                                != vecs.deep_view()[j].n by {
                                if j < prev.len() {
                                    assert(prev[i].n != prev[j].n);
                                } else {
                                    assert(vecs.deep_view()[i] == prev[i]);
                                    assert(!seq_has_vec_id(prev, msg_vec.n));
                                    assert(prev[i].n != msg_vec.n);
                                }
                            }
                        }
                    }
                    self.vecs = Some(vecs);
                    true
                }
            },
        }
    }

    /// The first Array Record carrying `msg_n`, in insertion order, or
    /// `None` if none does or the collection is absent.
    pub fn get_vec(&self, msg_n: u128) -> (r: Option<&MessageVec>)
        ensures
            (match r {
                Some(mv) => opt_find_vec(self@.vecs, msg_n) == Some(mv@),
                None => opt_find_vec(self@.vecs, msg_n) is None,
            }),
    {
        match &self.vecs {
            None => None,
            Some(vecs) => {
                let ghost vv = vecs.deep_view();
                proof {
                    assert(vv.skip(0) =~= vv);
                }
                let mut i: usize = 0;
                while i < vecs.len()
                    invariant
                        i <= vecs.len(),
                        vv == vecs.deep_view(),
                        vv.len() == vecs@.len(),
                        self@.vecs == Some(vv),
                        find_vec(vv, msg_n) == find_vec(vv.skip(i as int), msg_n),
                    decreases vecs.len() - i,
                {
                    if vecs[i].n == msg_n {
                        proof {
                            assert(vv.skip(i as int)[0] == vv[i as int]);
                            assert(find_vec(vv.skip(i as int), msg_n) == Some(vv[i as int]));
                            assert(vecs@[i as int]@ == vv[i as int]);
                        }
                        return Some(&vecs[i]);
                    }
                    proof {
                        assert(vv.skip(i as int)[0] == vv[i as int]);
                        assert(vv.skip(i as int).drop_first() =~= vv.skip(i + 1));
                    }
                    i = i + 1;
                }
                proof {
                    assert(vv.skip(vv.len() as int).len() == 0);
                    assert(find_vec(vv.skip(vv.len() as int), msg_n) is None);
                }
                None
            },
        }
    }

    /// This payload's wire form: items then vecs, each behind a presence
    /// byte.  Encoding a well-formed in-memory container never fails.
    pub fn encode(&self) -> (r: Vec<u8>)
        requires
            payload_encodable(self@),
        ensures
            r@ == payload_enc(self@),
    {
        let mut out: Vec<u8> = Vec::new();
        match &self.items {
            None => {
                out.push(0u8);
                proof {
                    assert(out@ =~= opt_items_enc(self@.items));
                }
            },
            Some(items) => {
                out.push(1u8);
                encode_items(&mut out, items);
                proof {
                    assert(out@ =~= opt_items_enc(self@.items));
                }
            },
        }
        let ghost head = out@;
        match &self.vecs {
            None => {
                out.push(0u8);
                proof {
                    assert(out@ =~= head + opt_vecs_enc(self@.vecs));
                }
            },
            Some(vecs) => {
                out.push(1u8);
                encode_vecs(&mut out, vecs);
                proof {
                    assert(out@ =~= head + (seq![1u8] + vecs_seq_enc(vecs.deep_view())));
                }
            },
        }
        proof {
            assert(out@ =~= payload_enc(self@));
        }
        out
    }

    fn decode_opt_items(s: &[u8], pos: usize) -> (r: Result<
        (Option<Vec<MessageItem>>, usize),
        CodecError,
    >)
        requires
            pos <= s@.len(),
        ensures
            (match r {
                Ok(v) => parse_opt_items(s@.skip(pos as int)) == Ok::<
                    (Option<Seq<ItemView>>, nat),
                    CodecError,
                >((v.0.deep_view(), (v.1 - pos) as nat)) && pos <= v.1 <= s@.len(),
                Err(e) => parse_opt_items(s@.skip(pos as int)) == Err::<
                    (Option<Seq<ItemView>>, nat),
                    CodecError,
                >(e),
            }),
    {
        let ghost t = s@.skip(pos as int);
        if s.len() - pos < 1 {
            return Err(CodecError::TruncatedInput);
        }
        let flag = *slice_index_get(s, pos);
        proof {
            assert(flag == t[0]);
        }
        if flag == 0 {
            Ok((None, pos + 1))
        } else if flag == 1 {
            proof {
                assert(s@.skip((pos + 1) as int) =~= t.skip(1));
            }
            match decode_items(s, pos + 1) {
                Ok(v) => Ok((Some(v.0), v.1)),
                Err(e) => Err(e),
            }
        } else {
            Err(CodecError::InvalidDiscriminant)
        }
    }

    fn decode_opt_vecs(s: &[u8], pos: usize) -> (r: Result<
        (Option<Vec<MessageVec>>, usize),
        CodecError,
    >)
        requires
            pos <= s@.len(),
        ensures
            (match r {
                Ok(v) => parse_opt_vecs(s@.skip(pos as int)) == Ok::<
                    (Option<Seq<VecView>>, nat),
                    CodecError,
                >((v.0.deep_view(), (v.1 - pos) as nat)) && pos <= v.1 <= s@.len(),
                Err(e) => parse_opt_vecs(s@.skip(pos as int)) == Err::<
                    (Option<Seq<VecView>>, nat),
                    CodecError,
                >(e),
            }),
    {
        let ghost t = s@.skip(pos as int);
        if s.len() - pos < 1 {
            return Err(CodecError::TruncatedInput);
        }
        let flag = *slice_index_get(s, pos);
        proof {
            assert(flag == t[0]);
        }
        if flag == 0 {
            Ok((None, pos + 1))
        } else if flag == 1 {
            proof {
                assert(s@.skip((pos + 1) as int) =~= t.skip(1));
            }
            match decode_vecs(s, pos + 1) {
                Ok(v) => Ok((Some(v.0), v.1)),
                Err(e) => Err(e),
            }
        } else {
            Err(CodecError::InvalidDiscriminant)
        }
    }

    /// Decodes a payload from the front of `bytes`; bytes past the
    /// payload are ignored, as the reference codec ignores them.  Errors
    /// raised on a nested record abort the whole decode and propagate
    /// unchanged: no partial container is returned.  The identifier
    /// uniqueness invariant is not re-checked here: a byte stream that
    /// encodes duplicate identifiers decodes successfully, and uniqueness
    /// is the insertion path's concern alone.
    pub fn decode(bytes: &[u8]) -> (r: Result<MessagePayload, CodecError>)
        ensures
            (match r {
                Ok(p) => (match parse_payload(bytes@) {
                    Ok(pv) => p@ == pv.0,
                    Err(_) => false,
                }),
                Err(e) => parse_payload(bytes@) == Err::<(PayloadView, nat), CodecError>(e),
            }),
    {
        proof {
            assert(bytes@.skip(0) =~= bytes@);
        }
        let (items, p1) = match MessagePayload::decode_opt_items(bytes, 0) {
            Ok(v) => v,
            Err(e) => {
                return Err(e);
            },
        };
        let (vecs, _p2) = match MessagePayload::decode_opt_vecs(bytes, p1) {
            Ok(v) => v,
            Err(e) => {
                return Err(e);
            },
        };
        Ok(MessagePayload { items: items, vecs: vecs })
    }
}

} // verus!
