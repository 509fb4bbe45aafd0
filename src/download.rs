//! Downloading one piece over a handshaken connection, as a state machine:
//! wait for `Bitfield`, send `Interested`, wait for `Unchoke`, request the
//! blocks, store each one in its slot, and check the assembled piece against
//! its hash. The caller does the I/O: it hands each received message to
//! `on_message` and sends what comes back.
use vstd::prelude::*;

use crate::digest::{sha1_digest, sha1_of};
use crate::message::{Message, MessageTag};
use crate::metainfo::{ceil_div, lemma_ceil_div, piece_size, piece_size_spec};
use crate::wire::push_all;

verus! {

/// Size of a block, the unit of request on the wire.
pub const BLOCK_SIZE: u32 = 16384;

#[derive(Debug, Clone, Copy, PartialEq, Eq, Structural)]
pub enum Phase {
    AwaitBitfield,
    AwaitUnchoke,
    RequestingBlocks,
    Done,
    Failed,
}

/// Why a download failed.
#[derive(Debug, Clone, Copy, PartialEq, Eq, Structural)]
pub enum DownloadError {
    /// A message other than the one the current phase waits for.
    Unexpected { expected: MessageTag, got: MessageTag },
    /// A block of another piece.
    WrongPiece { index: u32 },
    /// A block offset that is not a multiple of the block size.
    MisalignedBlock { begin: u32 },
    /// A block that was not asked for, or that came already.
    UnrequestedBlock { begin: u32 },
    /// A block whose length is not that of its slot.
    BadBlockLength { begin: u32, length: usize },
    /// The assembled piece does not have the expected hash.
    Verification,
    /// The session has already ended.
    Finished,
}

/// What the caller should do after a message.
#[derive(Debug)]
pub enum Step {
    /// Send these messages, in order, then wait for the next one.
    Send(Vec<Message>),
    /// The piece arrived whole and matches its hash.
    Complete(Vec<u8>),
}

/// Model of a download session.
pub struct DownloadModel {
    pub index: u32,
    pub piece_size: int,
    pub block_size: int,
    pub max_in_flight: int,
    pub expected_hash: Seq<u8>,
    pub phase: Phase,
    /// How many blocks, from the first on, have been asked for.
    pub requested: int,
    /// The block stored in each slot so far.
    pub slots: Seq<Option<Seq<u8>>>,
}

/// What a message makes the session do, before any hash is known.
pub enum Outcome {
    SendInterested,
    /// Requests for the blocks `from .. to`.
    SendRequests { from: int, to: int },
    /// Every block is in: assemble and check the piece.
    Assemble,
    Fail(DownloadError),
}

/// Length of the block in `slot`: the block size, but for the last block,
/// which has what is left of the piece.
pub open spec fn block_len(m: DownloadModel, slot: int) -> int {
    piece_size_spec(m.piece_size, m.block_size, m.slots.len() as int, slot)
}

/// The request for the block in `slot`.
pub open spec fn request_msg(m: DownloadModel, slot: int) -> Message {
    Message::Request { index: m.index, begin: (slot * m.block_size) as u32, length: block_len(m, slot) as u32 }
}

pub open spec fn all_filled(slots: Seq<Option<Seq<u8>>>) -> bool {
    forall|s: int| 0 <= s < slots.len() ==> (#[trigger] slots[s]) is Some
}

/// The stored blocks one after another, in slot order.
pub open spec fn concat_slots(slots: Seq<Option<Seq<u8>>>) -> Seq<u8>
    decreases slots.len(),
{
    if slots.len() == 0 {
        Seq::empty()
    } else {
        concat_slots(slots.drop_last()) + match slots.last() {
            Some(b) => b,
            None => Seq::empty(),
        }
    }
}

pub open spec fn failed(m: DownloadModel) -> DownloadModel {
    DownloadModel { phase: Phase::Failed, slots: Seq::empty(), ..m }
}

pub open spec fn min(a: int, b: int) -> int {
    if a < b {
        a
    } else {
        b
    }
}

/// The next model and what to do, for message `msg` in model `m`.
pub open spec fn transition(m: DownloadModel, msg: Message) -> (DownloadModel, Outcome) {
    match m.phase {
        Phase::AwaitBitfield => if msg is Bitfield {
            (DownloadModel { phase: Phase::AwaitUnchoke, ..m }, Outcome::SendInterested)
        } else {
            (failed(m), Outcome::Fail(DownloadError::Unexpected { expected: MessageTag::Bitfield, got: msg.tag() }))
        },
        Phase::AwaitUnchoke => if msg is Unchoke {
            let k = min(m.max_in_flight, m.slots.len() as int);
            (DownloadModel { phase: Phase::RequestingBlocks, requested: k, ..m }, Outcome::SendRequests {
                from: 0,
                to: k,
            })
        } else {
            (failed(m), Outcome::Fail(DownloadError::Unexpected { expected: MessageTag::Unchoke, got: msg.tag() }))
        },
        Phase::RequestingBlocks => match msg {
            Message::Piece { index, begin, block } => {
                let slot = begin as int / m.block_size;
                if index != m.index {
                    (failed(m), Outcome::Fail(DownloadError::WrongPiece { index }))
                } else if begin as int % m.block_size != 0 {
                    (failed(m), Outcome::Fail(DownloadError::MisalignedBlock { begin }))
                } else if slot >= m.requested || m.slots[slot] is Some {
                    (failed(m), Outcome::Fail(DownloadError::UnrequestedBlock { begin }))
                } else if block@.len() != block_len(m, slot) {
                    (failed(m), Outcome::Fail(DownloadError::BadBlockLength { begin, length: block@.len() as usize }))
                } else {
                    let m2 = DownloadModel { slots: m.slots.update(slot, Some(block@)), ..m };
                    if all_filled(m2.slots) {
                        (m2, Outcome::Assemble)
                    } else if m.requested < m.slots.len() {
                        (DownloadModel { requested: m.requested + 1, ..m2 }, Outcome::SendRequests {
                            from: m.requested,
                            to: m.requested + 1,
                        })
                    } else {
                        (m2, Outcome::SendRequests { from: m.requested, to: m.requested })
                    }
                }
            },
            _ => (failed(m), Outcome::Fail(DownloadError::Unexpected { expected: MessageTag::Piece, got: msg.tag() })),
        },
        _ => (m, Outcome::Fail(DownloadError::Finished)),
    }
}

/// The slots after storing each delivered `(slot, block)` in turn, as a
/// valid `Piece` message does.
pub open spec fn store_all(slots: Seq<Option<Seq<u8>>>, ds: Seq<(int, Seq<u8>)>) -> Seq<Option<Seq<u8>>>
    decreases ds.len(),
{
    if ds.len() == 0 {
        slots
    } else {
        store_all(slots, ds.drop_last()).update(ds.last().0, Some(ds.last().1))
    }
}

/// No two deliveries name the same slot, and each names a slot that exists.
pub open spec fn deliveries_ok(slots: Seq<Option<Seq<u8>>>, ds: Seq<(int, Seq<u8>)>) -> bool {
    &&& forall|i: int, j: int| 0 <= i < j < ds.len() ==> #[trigger] ds[i].0 != #[trigger] ds[j].0
    &&& forall|i: int| 0 <= i < ds.len() ==> 0 <= #[trigger] ds[i].0 < slots.len()
}

proof fn lemma_store_all(slots: Seq<Option<Seq<u8>>>, ds: Seq<(int, Seq<u8>)>)
    requires
        deliveries_ok(slots, ds),
    ensures
        store_all(slots, ds).len() == slots.len(),
        forall|i: int| 0 <= i < ds.len() ==> store_all(slots, ds)[#[trigger] ds[i].0] == Some(ds[i].1),
        forall|s: int|
            0 <= s < slots.len() && (forall|i: int| 0 <= i < ds.len() ==> #[trigger] ds[i].0 != s) ==> #[trigger] store_all(slots, ds)[s]
                == slots[s],
    decreases ds.len(),
{
    if ds.len() > 0 {
        let p = ds.drop_last();
        assert(deliveries_ok(slots, p)) by {
            assert forall|i: int, j: int| 0 <= i < j < p.len() implies #[trigger] p[i].0 != #[trigger] p[j].0 by {
                assert(p[i] == ds[i] && p[j] == ds[j]);
            }
            assert forall|i: int| 0 <= i < p.len() implies 0 <= #[trigger] p[i].0 < slots.len() by {
                assert(p[i] == ds[i]);
            }
        }
        lemma_store_all(slots, p);
        let last = ds.len() - 1;
        assert forall|i: int| 0 <= i < ds.len() implies store_all(slots, ds)[#[trigger] ds[i].0] == Some(ds[i].1) by {
            if i < last {
                assert(p[i] == ds[i]);
                assert(ds[i].0 != ds[last].0);
            }
        }
        assert forall|s: int|
            0 <= s < slots.len() && (forall|i: int| 0 <= i < ds.len() ==> #[trigger] ds[i].0 != s) implies #[trigger] store_all(slots, ds)[s]
                == slots[s] by {
            assert(ds[last].0 != s);
            assert forall|i: int| 0 <= i < p.len() implies #[trigger] p[i].0 != s by {
                assert(p[i] == ds[i]);
            }
        }
    }
}

/// Blocks delivered in any order, each tagged with its slot, fill the slots
/// just as the same blocks delivered in slot order do; so the assembled
/// piece is the same bytes.
pub proof fn lemma_delivery_order(slots: Seq<Option<Seq<u8>>>, ds1: Seq<(int, Seq<u8>)>, ds2: Seq<(int, Seq<u8>)>)
    requires
        deliveries_ok(slots, ds1),
        deliveries_ok(slots, ds2),
        forall|d: (int, Seq<u8>)| ds1.contains(d) <==> ds2.contains(d),
    ensures
        store_all(slots, ds1) == store_all(slots, ds2),
        concat_slots(store_all(slots, ds1)) == concat_slots(store_all(slots, ds2)),
{
    lemma_store_all(slots, ds1);
    lemma_store_all(slots, ds2);
    let a = store_all(slots, ds1);
    let b = store_all(slots, ds2);
    assert forall|s: int| 0 <= s < slots.len() implies a[s] == b[s] by {
        if exists|i: int| 0 <= i < ds1.len() && ds1[i].0 == s {
            let i = choose|i: int| 0 <= i < ds1.len() && ds1[i].0 == s;
            assert(ds1.contains(ds1[i]));
            let j = choose|j: int| 0 <= j < ds2.len() && ds2[j] == ds1[i];
            assert(a[ds1[i].0] == Some(ds1[i].1));
            assert(b[ds2[j].0] == Some(ds2[j].1));
        } else if exists|j: int| 0 <= j < ds2.len() && ds2[j].0 == s {
            let j = choose|j: int| 0 <= j < ds2.len() && ds2[j].0 == s;
            assert(ds2.contains(ds2[j]));
            let i = choose|i: int| 0 <= i < ds1.len() && ds1[i] == ds2[j];
            assert(ds1[i].0 == s);
        } else {
            assert(a[s] == slots[s]);
            assert(b[s] == slots[s]);
        }
    }
    assert(a =~= b);
}

proof fn lemma_block_count(piece_size: int, block_size: int)
    requires
        piece_size > 0,
        block_size > 0,
    ensures
        1 <= ceil_div(piece_size, block_size) <= piece_size,
{
    lemma_ceil_div(piece_size, block_size);
    let c = ceil_div(piece_size, block_size);
    assert(c - 1 <= block_size * (c - 1)) by (nonlinear_arith)
        requires
            c >= 1,
            block_size > 0,
    ;
}

/// Hands back `data` when its digest is the expected one.
pub fn check_piece(data: Vec<u8>, digest: &[u8; 20], expected: &[u8; 20]) -> (r: Result<Vec<u8>, DownloadError>)
    ensures
        digest@ == expected@ ==> (r matches Ok(d) && d@ == data@),
        digest@ != expected@ ==> r == Err::<Vec<u8>, _>(DownloadError::Verification),
{
    let mut i: usize = 0;
    while i < 20
        invariant
            i <= 20,
            forall|j: int| 0 <= j < i ==> digest@[j] == expected@[j],
        decreases 20 - i,
    {
        if digest[i] != expected[i] {
            return Err(DownloadError::Verification);
        }
        i += 1;
    }
    assert(digest@ =~= expected@);
    Ok(data)
}

/// One piece being downloaded from one peer.
pub struct PieceDownload {
    index: u32,
    piece_size: u32,
    block_size: u32,
    max_in_flight: u32,
    expected_hash: [u8; 20],
    phase: Phase,
    requested: u32,
    blocks: Vec<Option<Vec<u8>>>,
}

pub closed spec fn slots_view(blocks: Seq<Option<Vec<u8>>>) -> Seq<Option<Seq<u8>>> {
    Seq::new(
        blocks.len(),
        |i: int|
            match blocks[i] {
                Some(v) => Some(v@),
                None => None,
            },
    )
}

impl View for PieceDownload {
    type V = DownloadModel;

    closed spec fn view(&self) -> DownloadModel {
        DownloadModel {
            index: self.index,
            piece_size: self.piece_size as int,
            block_size: self.block_size as int,
            max_in_flight: self.max_in_flight as int,
            expected_hash: self.expected_hash@,
            phase: self.phase,
            requested: self.requested as int,
            slots: slots_view(self.blocks@),
        }
    }
}

impl PieceDownload {
    /// Sizes above zero; while the session runs, one slot per block, asked
    /// for in order, each stored block of its slot's length.
    pub closed spec fn wf(&self) -> bool {
        let m = self@;
        &&& self.block_size > 0
        &&& self.piece_size > 0
        &&& self.max_in_flight > 0
        &&& (self.phase == Phase::Done || self.phase == Phase::Failed) || {
            &&& m.slots.len() == ceil_div(m.piece_size, m.block_size)
            &&& 0 <= m.requested <= m.slots.len()
            &&& self.phase != Phase::RequestingBlocks ==> m.requested == 0
            &&& forall|s: int| 0 <= s < m.slots.len() && (#[trigger] m.slots[s]) is Some ==> s < m.requested
                && m.slots[s]->0.len() == block_len(m, s)
        }
    }

    /// A session for piece `index` of `piece_size` bytes whose hash should be
    /// `expected_hash`, asking for blocks of `block_size` bytes, at most
    /// `max_in_flight` at a time.
    pub fn new(index: u32, piece_size: u32, block_size: u32, max_in_flight: u32, expected_hash: [u8; 20]) -> (r: PieceDownload)
        requires
            piece_size > 0,
            block_size > 0,
            max_in_flight > 0,
        ensures
            r.wf(),
            r@.index == index,
            r@.piece_size == piece_size,
            r@.block_size == block_size,
            r@.max_in_flight == max_in_flight,
            r@.expected_hash == expected_hash@,
            r@.phase == Phase::AwaitBitfield,
            r@.requested == 0,
            r@.slots == Seq::new(ceil_div(piece_size as int, block_size as int) as nat, |i: int| None::<Seq<u8>>),
    {
        let count = crate::metainfo::piece_count(piece_size as u64, block_size as u64);
        proof {
            lemma_ceil_div(piece_size as int, block_size as int);
        }
        let mut blocks: Vec<Option<Vec<u8>>> = Vec::new();
        let mut i: u64 = 0;
        while i < count
            invariant
                i <= count,
                count <= piece_size,
                blocks@.len() == i,
                forall|j: int| 0 <= j < i ==> (#[trigger] blocks@[j]) is None,
            decreases count - i,
        {
            blocks.push(None);
            i += 1;
        }
        let r = PieceDownload {
            index,
            piece_size,
            block_size,
            max_in_flight,
            expected_hash,
            phase: Phase::AwaitBitfield,
            requested: 0,
            blocks,
        };
        assert(r@.slots =~= Seq::new(ceil_div(piece_size as int, block_size as int) as nat, |i: int| None::<Seq<u8>>));
        r
    }

    pub fn phase(&self) -> (r: Phase)
        ensures
            r == self@.phase,
    {
        self.phase
    }

    fn fail(&mut self)
        ensures
            final(self)@ == failed(old(self)@),
            final(self).block_size == old(self).block_size,
            final(self).piece_size == old(self).piece_size,
            final(self).max_in_flight == old(self).max_in_flight,
    {
        self.phase = Phase::Failed;
        self.blocks = Vec::new();
        assert(slots_view(self.blocks@) =~= Seq::<Option<Seq<u8>>>::empty());
    }

    /// The request for the block in `slot`.
    fn request(&self, slot: u32) -> (r: Message)
        requires
            self.wf(),
            self.phase == Phase::AwaitUnchoke || self.phase == Phase::RequestingBlocks,
            slot < self@.slots.len(),
        ensures
            r == request_msg(self@, slot as int),
    {
        proof {
            lemma_ceil_div(self.piece_size as int, self.block_size as int);
            let c = self@.slots.len() as int;
            assert(slot * self.block_size <= self.block_size * (c - 1)) by (nonlinear_arith)
                requires
                    slot <= c - 1,
                    self.block_size > 0,
            ;
        }
        let len = piece_size(self.piece_size as u64, self.block_size as u64, slot as u64);
        Message::Request { index: self.index, begin: slot * self.block_size, length: len as u32 }
    }

    /// Takes the next message from the peer; says what to send, or hands
    /// back the verified piece. Any violation ends the session.
    pub fn on_message(&mut self, msg: Message) -> (r: Result<Step, DownloadError>)
        requires
            old(self).wf(),
        ensures
            final(self).wf(),
            ({
                let (m2, out) = transition(old(self)@, msg);
                match out {
                    Outcome::SendInterested => final(self)@ == m2 && (r matches Ok(Step::Send(v)) && v@.len()
                        == 1 && v@[0] is Interested),
                    Outcome::SendRequests { from, to } => final(self)@ == m2 && (r matches Ok(Step::Send(v))
                        && v@.len() == to - from && forall|j: int|
                        0 <= j < v@.len() ==> #[trigger] v@[j] == request_msg(m2, from + j)),
                    Outcome::Fail(e) => final(self)@ == m2 && r == Err::<Step, _>(e),
                    Outcome::Assemble => {
                        let data = concat_slots(m2.slots);
                        if sha1_of(data) == m2.expected_hash {
                            &&& final(self)@ == DownloadModel { phase: Phase::Done, slots: Seq::empty(), ..m2 }
                            &&& r matches Ok(Step::Complete(d)) && d@ == data
                        } else {
                            &&& final(self)@ == failed(m2)
                            &&& r == Err::<Step, _>(DownloadError::Verification)
                        }
                    },
                }
            }),
    {
        let ghost m = self@;
        proof {
            lemma_block_count(self.piece_size as int, self.block_size as int);
        }
        match self.phase {
            Phase::AwaitBitfield => {
                match msg {
                    Message::Bitfield(_) => {
                        self.phase = Phase::AwaitUnchoke;
                        let mut v: Vec<Message> = Vec::new();
                        v.push(Message::Interested);
                        Ok(Step::Send(v))
                    },
                    _ => {
                        let got = msg.kind();
                        self.fail();
                        Err(DownloadError::Unexpected { expected: MessageTag::Bitfield, got })
                    },
                }
            },
            Phase::AwaitUnchoke => {
                match msg {
                    Message::Unchoke => {
                        let count = self.blocks.len() as u32;
                        let k = if self.max_in_flight < count {
                            self.max_in_flight
                        } else {
                            count
                        };
                        let mut v: Vec<Message> = Vec::new();
                        let mut s: u32 = 0;
                        while s < k
                            invariant
                                self.wf(),
                                self@ == m,
                                self.phase == Phase::AwaitUnchoke,
                                k <= self@.slots.len(),
                                s <= k,
                                v@.len() == s,
                                forall|j: int| 0 <= j < s ==> #[trigger] v@[j] == request_msg(m, j),
                            decreases k - s,
                        {
                            let q = self.request(s);
                            v.push(q);
                            s += 1;
                        }
                        self.requested = k;
                        self.phase = Phase::RequestingBlocks;
                        Ok(Step::Send(v))
                    },
                    _ => {
                        let got = msg.kind();
                        self.fail();
                        Err(DownloadError::Unexpected { expected: MessageTag::Unchoke, got })
                    },
                }
            },
            Phase::RequestingBlocks => {
                match msg {
                    Message::Piece { index, begin, block } => {
                        if index != self.index {
                            self.fail();
                            return Err(DownloadError::WrongPiece { index });
                        }
                        if begin % self.block_size != 0 {
                            self.fail();
                            return Err(DownloadError::MisalignedBlock { begin });
                        }
                        let slot = begin / self.block_size;
                        if slot >= self.requested {
                            self.fail();
                            return Err(DownloadError::UnrequestedBlock { begin });
                        }
                        let taken = match &self.blocks[slot as usize] {
                            Some(_) => true,
                            None => false,
                        };
                        if taken {
                            self.fail();
                            return Err(DownloadError::UnrequestedBlock { begin });
                        }
                        let want = piece_size(self.piece_size as u64, self.block_size as u64, slot as u64);
                        if block.len() as u64 != want {
                            let length = block.len();
                            self.fail();
                            return Err(DownloadError::BadBlockLength { begin, length });
                        }
                        let ghost bv = block@;
                        self.blocks[slot as usize] = Some(block);
                        proof {
                            assert(self@.slots =~= m.slots.update(slot as int, Some(bv)));
                        }
                        if self.all_received() {
                            let data = self.assemble();
                            let digest = sha1_digest(data.as_slice());
                            self.blocks = Vec::new();
                            assert(slots_view(self.blocks@) =~= Seq::<Option<Seq<u8>>>::empty());
                            match check_piece(data, &digest, &self.expected_hash) {
                                Ok(d) => {
                                    self.phase = Phase::Done;
                                    Ok(Step::Complete(d))
                                },
                                Err(e) => {
                                    self.phase = Phase::Failed;
                                    Err(e)
                                },
                            }
                        } else if (self.requested as usize) < self.blocks.len() {
                            let q = self.request(self.requested);
                            self.requested = self.requested + 1;
                            let mut v: Vec<Message> = Vec::new();
                            v.push(q);
                            Ok(Step::Send(v))
                        } else {
                            Ok(Step::Send(Vec::new()))
                        }
                    },
                    _ => {
                        let got = msg.kind();
                        self.fail();
                        Err(DownloadError::Unexpected { expected: MessageTag::Piece, got })
                    },
                }
            },
            _ => Err(DownloadError::Finished),
        }
    }

    fn all_received(&self) -> (r: bool)
        ensures
            r == all_filled(self@.slots),
    {
        let mut i: usize = 0;
        while i < self.blocks.len()
            invariant
                i <= self.blocks@.len(),
                forall|s: int| 0 <= s < i ==> (#[trigger] self@.slots[s]) is Some,
            decreases self.blocks@.len() - i,
        {
            match &self.blocks[i] {
                None => {
                    assert(self@.slots[i as int] is None);
                    return false;
                },
                Some(_) => {},
            }
            i += 1;
        }
        true
    }

    fn assemble(&self) -> (r: Vec<u8>)
        ensures
            r@ == concat_slots(self@.slots),
    {
        let ghost slots = self@.slots;
        let mut out: Vec<u8> = Vec::new();
        let mut i: usize = 0;
        assert(slots.take(0) =~= Seq::<Option<Seq<u8>>>::empty());
        while i < self.blocks.len()
            invariant
                i <= self.blocks@.len(),
                slots == self@.slots,
                out@ == concat_slots(slots.take(i as int)),
            decreases self.blocks@.len() - i,
        {
            assert(slots.take(i + 1).drop_last() =~= slots.take(i as int));
            match &self.blocks[i] {
                Some(b) => {
                    push_all(&mut out, b.as_slice());
                },
                None => {
                    assert(out@ =~= out@ + Seq::<u8>::empty());
                },
            }
            i += 1;
        }
        assert(slots.take(i as int) =~= slots);
        out
    }
}

} // verus!
