//! The buffer relayer account: a record read field by field, with two
//! rounds inside it and a payload of any length at its end.

use crate::error::AccountError;
use crate::wire::{
    flag_byte, i64_le, le_i64, le_u32, le_u64, lemma_i64_read_back, lemma_u32_read_back, lemma_u64_read_back,
    put_bytes, put_i64, put_u32, put_u64, strip_tag, take_array, take_flag, take_i64,
    take_prefixed, take_u32, take_u64, u32_le, u64_le, TAG_LEN,
};
use vstd::prelude::*;

verus! {

/// How many bytes a round takes.
pub const ROUND_LEN: usize = 56;

/// How many bytes of a record come before its payload: the fields of fixed
/// width, then the count of the payload's bytes.
pub const HEAD_LEN: usize = 313;

/// The tag that marks an account as a buffer relayer.
pub open spec fn tag() -> Seq<u8> {
    seq![50u8, 35u8, 51u8, 115u8, 169u8, 219u8, 158u8, 52u8]
}

/// One round of updates to a buffer relayer.
#[derive(Debug, Clone, Copy)]
pub struct BufferRelayerRound {
    /// How many oracles answered.
    pub num_success: u32,
    /// How many oracles failed.
    pub num_error: u32,
    /// The ledger slot in which the round was opened.
    pub round_open_slot: u64,
    /// When the round was opened, in seconds since the epoch.
    pub round_open_timestamp: i64,
    /// The oracle that fulfils the round.
    pub oracle_pubkey: [u8; 32],
}

/// What a round says, as mathematical values.
#[verifier::ext_equal]
pub struct Round {
    pub num_success: u32,
    pub num_error: u32,
    pub round_open_slot: u64,
    pub round_open_timestamp: i64,
    pub oracle_pubkey: Seq<u8>,
}

impl View for BufferRelayerRound {
    type V = Round;

    open spec fn view(&self) -> Round {
        Round {
            num_success: self.num_success,
            num_error: self.num_error,
            round_open_slot: self.round_open_slot,
            round_open_timestamp: self.round_open_timestamp,
            oracle_pubkey: self.oracle_pubkey@,
        }
    }
}

/// A snapshot of a buffer relayer, as the ledger held it when the bytes were
/// fetched.
#[derive(Debug)]
pub struct BufferRelayerAccountData {
    /// The name under which the buffer is kept.
    pub name: [u8; 32],
    /// The oracle queue that serves the buffer's update requests.
    pub queue_pubkey: [u8; 32],
    /// The token account that oracles are paid from.
    pub escrow: [u8; 32],
    /// Who may change the account.
    pub authority: [u8; 32],
    /// The job that says how the buffer is updated.
    pub job_pubkey: [u8; 32],
    /// The hash of that job's definition, so that nobody in between can
    /// hand oracles another one.
    pub job_hash: [u8; 32],
    /// The least number of seconds between two update requests.
    pub min_update_delay_seconds: u32,
    /// Whether the account's settings are closed to further change.
    pub is_locked: bool,
    /// The round that is open and not yet confirmed.
    pub current_round: BufferRelayerRound,
    /// The last round that was confirmed.
    pub latest_confirmed_round: BufferRelayerRound,
    /// The payload of the last confirmed round.
    pub result: Vec<u8>,
}

/// What a buffer relayer record says, as mathematical values.
#[verifier::ext_equal]
pub struct BufferRelayer {
    pub name: Seq<u8>,
    pub queue_pubkey: Seq<u8>,
    pub escrow: Seq<u8>,
    pub authority: Seq<u8>,
    pub job_pubkey: Seq<u8>,
    pub job_hash: Seq<u8>,
    pub min_update_delay_seconds: u32,
    pub is_locked: bool,
    pub current_round: Round,
    pub latest_confirmed_round: Round,
    pub result: Seq<u8>,
}

impl View for BufferRelayerAccountData {
    type V = BufferRelayer;

    open spec fn view(&self) -> BufferRelayer {
        BufferRelayer {
            name: self.name@,
            queue_pubkey: self.queue_pubkey@,
            escrow: self.escrow@,
            authority: self.authority@,
            job_pubkey: self.job_pubkey@,
            job_hash: self.job_hash@,
            min_update_delay_seconds: self.min_update_delay_seconds,
            is_locked: self.is_locked,
            current_round: self.current_round@,
            latest_confirmed_round: self.latest_confirmed_round@,
            result: self.result@,
        }
    }
}

/// The round that the first 56 bytes of `b` hold: two counters, the slot,
/// the timestamp and the oracle, in that order.
pub open spec fn round_of(b: Seq<u8>) -> Round
    recommends
        b.len() >= ROUND_LEN,
{
    Round {
        num_success: le_u32(b.subrange(0, 4)),
        num_error: le_u32(b.subrange(4, 8)),
        round_open_slot: le_u64(b.subrange(8, 16)),
        round_open_timestamp: le_i64(b.subrange(16, 24)),
        oracle_pubkey: b.subrange(24, 56),
    }
}

/// The 56 bytes that a round is written as.
pub open spec fn round_bytes(r: Round) -> Seq<u8>
    recommends
        r.oracle_pubkey.len() == 32,
{
    u32_le(r.num_success) + u32_le(r.num_error) + u64_le(r.round_open_slot) + i64_le(
        r.round_open_timestamp,
    ) + r.oracle_pubkey
}

/// How many bytes the payload of the record in `body` is said to have.
pub open spec fn payload_len(body: Seq<u8>) -> int
    recommends
        body.len() >= HEAD_LEN,
{
    le_u32(body.subrange(309, 313)) as int
}

/// Whether `body` holds a whole record: its head, a lock flag that is 0 or
/// 1, and as many bytes of payload as the head counts.
pub open spec fn holds_record(body: Seq<u8>) -> bool {
    &&& body.len() >= HEAD_LEN
    &&& body[196] <= 1
    &&& body.len() >= HEAD_LEN + payload_len(body)
}

/// The record that `body` holds: each field is what stands at its place,
/// numbers least significant byte first.
pub open spec fn record_of(body: Seq<u8>) -> BufferRelayer
    recommends
        holds_record(body),
{
    BufferRelayer {
        name: body.subrange(0, 32),
        queue_pubkey: body.subrange(32, 64),
        escrow: body.subrange(64, 96),
        authority: body.subrange(96, 128),
        job_pubkey: body.subrange(128, 160),
        job_hash: body.subrange(160, 192),
        min_update_delay_seconds: le_u32(body.subrange(192, 196)),
        is_locked: body[196] == 1,
        current_round: round_of(body.subrange(197, 253)),
        latest_confirmed_round: round_of(body.subrange(253, 309)),
        result: body.subrange(313, 313 + payload_len(body)),
    }
}

/// What reading `data` as a buffer relayer account comes to: the record
/// behind the tag, or the first reason why there is none.
pub open spec fn decoded(data: Seq<u8>) -> Result<BufferRelayer, AccountError> {
    if data.len() < TAG_LEN {
        Err(AccountError::AccountTooShort)
    } else if data.subrange(0, TAG_LEN as int) != tag() {
        Err(AccountError::DiscriminatorMismatch)
    } else if !holds_record(data.skip(TAG_LEN as int)) {
        Err(AccountError::ReadExhausted)
    } else {
        Ok(record_of(data.skip(TAG_LEN as int)))
    }
}

/// A field of a round.
pub enum RoundField {
    NumSuccess,
    NumError,
    RoundOpenSlot,
    RoundOpenTimestamp,
    OraclePubkey,
}

/// A field of a record that has a place of its own among the fixed fields:
/// every one but the lock flag, which shares its width with no other.
pub enum Field {
    Name,
    QueuePubkey,
    Escrow,
    Authority,
    JobPubkey,
    JobHash,
    MinUpdateDelaySeconds,
    CurrentRound(RoundField),
    LatestConfirmedRound(RoundField),
}

/// How the bytes of a field are read.
pub enum Kind {
    Bytes,
    U32,
    U64,
    I64,
}

/// What a field holds.
pub enum Value {
    Bytes(Seq<u8>),
    U32(u32),
    U64(u64),
    I64(i64),
}

impl Kind {
    /// How many bytes a field of this kind takes.
    pub open spec fn width(self) -> int {
        match self {
            Kind::Bytes => 32,
            Kind::U32 => 4,
            Kind::U64 => 8,
            Kind::I64 => 8,
        }
    }

    /// What a field of this kind holds where `bytes` stand at its place.
    pub open spec fn reading(self, bytes: Seq<u8>) -> Value {
        match self {
            Kind::Bytes => Value::Bytes(bytes),
            Kind::U32 => Value::U32(le_u32(bytes)),
            Kind::U64 => Value::U64(le_u64(bytes)),
            Kind::I64 => Value::I64(le_i64(bytes)),
        }
    }
}

impl RoundField {
    /// Where the field starts within its round.
    pub open spec fn place(self) -> int {
        match self {
            RoundField::NumSuccess => 0,
            RoundField::NumError => 4,
            RoundField::RoundOpenSlot => 8,
            RoundField::RoundOpenTimestamp => 16,
            RoundField::OraclePubkey => 24,
        }
    }

    /// How the field is read.
    pub open spec fn kind(self) -> Kind {
        match self {
            RoundField::NumSuccess => Kind::U32,
            RoundField::NumError => Kind::U32,
            RoundField::RoundOpenSlot => Kind::U64,
            RoundField::RoundOpenTimestamp => Kind::I64,
            RoundField::OraclePubkey => Kind::Bytes,
        }
    }
}

impl Field {
    /// Where the field starts within the record.
    pub open spec fn place(self) -> int {
        match self {
            Field::Name => 0,
            Field::QueuePubkey => 32,
            Field::Escrow => 64,
            Field::Authority => 96,
            Field::JobPubkey => 128,
            Field::JobHash => 160,
            Field::MinUpdateDelaySeconds => 192,
            Field::CurrentRound(f) => 197 + f.place(),
            Field::LatestConfirmedRound(f) => 253 + f.place(),
        }
    }

    /// How the field is read.
    pub open spec fn kind(self) -> Kind {
        match self {
            Field::MinUpdateDelaySeconds => Kind::U32,
            Field::CurrentRound(f) => f.kind(),
            Field::LatestConfirmedRound(f) => f.kind(),
            _ => Kind::Bytes,
        }
    }

    /// How many bytes the field takes.
    pub open spec fn width(self) -> int {
        self.kind().width()
    }

    /// The bytes that stand at the field's place in `body`.
    pub open spec fn bytes_in(self, body: Seq<u8>) -> Seq<u8> {
        body.subrange(self.place(), self.place() + self.width())
    }
}

impl Round {
    /// What the round holds in field `f`.
    pub open spec fn value(self, f: RoundField) -> Value {
        match f {
            RoundField::NumSuccess => Value::U32(self.num_success),
            RoundField::NumError => Value::U32(self.num_error),
            RoundField::RoundOpenSlot => Value::U64(self.round_open_slot),
            RoundField::RoundOpenTimestamp => Value::I64(self.round_open_timestamp),
            RoundField::OraclePubkey => Value::Bytes(self.oracle_pubkey),
        }
    }
}

impl BufferRelayer {
    /// What the record holds in field `f`.
    pub open spec fn value(self, f: Field) -> Value {
        match f {
            Field::Name => Value::Bytes(self.name),
            Field::QueuePubkey => Value::Bytes(self.queue_pubkey),
            Field::Escrow => Value::Bytes(self.escrow),
            Field::Authority => Value::Bytes(self.authority),
            Field::JobPubkey => Value::Bytes(self.job_pubkey),
            Field::JobHash => Value::Bytes(self.job_hash),
            Field::MinUpdateDelaySeconds => Value::U32(self.min_update_delay_seconds),
            Field::CurrentRound(f) => self.current_round.value(f),
            Field::LatestConfirmedRound(f) => self.latest_confirmed_round.value(f),
        }
    }
}

/// `body` with the bytes of the fields `f` and `g` in each other's place.
pub open spec fn exchanged(body: Seq<u8>, f: Field, g: Field) -> Seq<u8>
    recommends
        f.width() == g.width(),
{
    Seq::new(
        body.len(),
        |k: int|
            if f.place() <= k < f.place() + f.width() {
                body[k - f.place() + g.place()]
            } else if g.place() <= k < g.place() + g.width() {
                body[k - g.place() + f.place()]
            } else {
                body[k]
            },
    )
}

/// Every field lies among the fixed fields and clear of the lock flag, and
/// no two fields share a byte.
proof fn lemma_places_apart(f: Field, g: Field)
    ensures
        0 <= f.place(),
        f.place() + f.width() <= 196 || (197 <= f.place() && f.place() + f.width() <= 309),
        f != g ==> f.place() + f.width() <= g.place() || g.place() + g.width() <= f.place(),
{
}

/// A round is read field by field, each from its own place.
proof fn lemma_round_field_places(b: Seq<u8>, f: RoundField)
    requires
        b.len() >= ROUND_LEN,
    ensures
        round_of(b).value(f) == f.kind().reading(
            b.subrange(f.place(), f.place() + f.kind().width()),
        ),
{
}

/// A record is read field by field: what it holds in a field is what that
/// field's kind makes of the bytes at that field's place, and of no others.
pub proof fn lemma_field_places(body: Seq<u8>, f: Field)
    requires
        body.len() >= HEAD_LEN,
    ensures
        record_of(body).value(f) == f.kind().reading(f.bytes_in(body)),
{
    match f {
        Field::CurrentRound(rf) => {
            let b = body.subrange(197, 253);
            lemma_round_field_places(b, rf);
            assert(b.subrange(rf.place(), rf.place() + rf.kind().width()) =~= f.bytes_in(body));
        },
        Field::LatestConfirmedRound(rf) => {
            let b = body.subrange(253, 309);
            lemma_round_field_places(b, rf);
            assert(b.subrange(rf.place(), rf.place() + rf.kind().width()) =~= f.bytes_in(body));
        },
        _ => {},
    }
}

/// Where the bytes of two fields of equal width change places in a buffer,
/// what is read for each of the two is made of the bytes that stood at the
/// other, and every other field, the lock flag and the payload are read as
/// before. Two fields of one kind so exchange what they hold.
pub proof fn lemma_exchange(body: Seq<u8>, f: Field, g: Field)
    requires
        holds_record(body),
        f != g,
        f.width() == g.width(),
    ensures
        holds_record(exchanged(body, f, g)),
        record_of(exchanged(body, f, g)).value(f) == f.kind().reading(g.bytes_in(body)),
        record_of(exchanged(body, f, g)).value(g) == g.kind().reading(f.bytes_in(body)),
        forall|h: Field|
            h != f && h != g ==> #[trigger] record_of(exchanged(body, f, g)).value(h) == record_of(
                body,
            ).value(h),
        record_of(exchanged(body, f, g)).is_locked == record_of(body).is_locked,
        record_of(exchanged(body, f, g)).result == record_of(body).result,
        f.kind() == g.kind() ==> {
            &&& record_of(exchanged(body, f, g)).value(f) == record_of(body).value(g)
            &&& record_of(exchanged(body, f, g)).value(g) == record_of(body).value(f)
        },
{
    let e = exchanged(body, f, g);
    lemma_places_apart(f, g);
    lemma_places_apart(g, f);
    assert(e.subrange(309, 313) =~= body.subrange(309, 313));
    let n = payload_len(body);
    assert(e.subrange(313, 313 + n) =~= body.subrange(313, 313 + n));
    assert(f.bytes_in(e) =~= g.bytes_in(body));
    assert(g.bytes_in(e) =~= f.bytes_in(body));
    lemma_field_places(e, f);
    lemma_field_places(e, g);
    lemma_field_places(body, f);
    lemma_field_places(body, g);
    assert forall|h: Field| h != f && h != g implies #[trigger] record_of(e).value(h) == record_of(
        body,
    ).value(h) by {
        lemma_places_apart(h, f);
        lemma_places_apart(h, g);
        assert(h.bytes_in(e) =~= h.bytes_in(body));
        lemma_field_places(e, h);
        lemma_field_places(body, h);
    }
}

/// A round that is written out and read again is the round written,
/// whatever follows it in the buffer.
pub proof fn lemma_round_round_trip(r: Round, rest: Seq<u8>)
    requires
        r.oracle_pubkey.len() == 32,
    ensures
        round_bytes(r).len() == ROUND_LEN,
        round_of(round_bytes(r) + rest) == r,
{
    let b = round_bytes(r) + rest;
    lemma_u32_read_back(r.num_success);
    lemma_u32_read_back(r.num_error);
    lemma_u64_read_back(r.round_open_slot);
    lemma_i64_read_back(r.round_open_timestamp);
    assert(b.subrange(0, 4) =~= u32_le(r.num_success));
    assert(b.subrange(4, 8) =~= u32_le(r.num_error));
    assert(b.subrange(8, 16) =~= u64_le(r.round_open_slot));
    assert(b.subrange(16, 24) =~= i64_le(r.round_open_timestamp));
    assert(b.subrange(24, 56) =~= r.oracle_pubkey);
    assert(round_of(b) =~= r);
}

impl BufferRelayer {
    /// Every address, name and hash has its 32 bytes, and the payload is
    /// short enough for its count to be written. This holds of the view of
    /// every record whose payload has fewer than 2^32 bytes.
    pub open spec fn well_formed(self) -> bool {
        &&& self.name.len() == 32
        &&& self.queue_pubkey.len() == 32
        &&& self.escrow.len() == 32
        &&& self.authority.len() == 32
        &&& self.job_pubkey.len() == 32
        &&& self.job_hash.len() == 32
        &&& self.current_round.oracle_pubkey.len() == 32
        &&& self.latest_confirmed_round.oracle_pubkey.len() == 32
        &&& self.result.len() <= u32::MAX
    }
}

/// The bytes that a record is written as: its fields in their order,
/// without gaps, then the count of the payload's bytes and the payload.
pub open spec fn record_bytes(v: BufferRelayer) -> Seq<u8>
    recommends
        v.well_formed(),
{
    v.name + v.queue_pubkey + v.escrow + v.authority + v.job_pubkey + v.job_hash + u32_le(
        v.min_update_delay_seconds,
    ) + seq![flag_byte(v.is_locked)] + round_bytes(v.current_round) + round_bytes(
        v.latest_confirmed_round,
    ) + u32_le(v.result.len() as u32) + v.result
}

/// Twelve runs of bytes with the widths of the record's fields, and any run
/// behind them, are found again, each at its place, in the run they make.
proof fn lemma_places(p: Seq<Seq<u8>>)
    requires
        p.len() == 13,
        p[0].len() == 32,
        p[1].len() == 32,
        p[2].len() == 32,
        p[3].len() == 32,
        p[4].len() == 32,
        p[5].len() == 32,
        p[6].len() == 4,
        p[7].len() == 1,
        p[8].len() == 56,
        p[9].len() == 56,
        p[10].len() == 4,
    ensures
        ({
            let b = p[0] + p[1] + p[2] + p[3] + p[4] + p[5] + p[6] + p[7] + p[8] + p[9] + p[10]
                + p[11] + p[12];
            &&& b.len() == 313 + p[11].len() + p[12].len()
            &&& b.subrange(0, 32) == p[0]
            &&& b.subrange(32, 64) == p[1]
            &&& b.subrange(64, 96) == p[2]
            &&& b.subrange(96, 128) == p[3]
            &&& b.subrange(128, 160) == p[4]
            &&& b.subrange(160, 192) == p[5]
            &&& b.subrange(192, 196) == p[6]
            &&& b[196] == p[7][0]
            &&& b.subrange(197, 253) == p[8]
            &&& b.subrange(253, 309) == p[9]
            &&& b.subrange(309, 313) == p[10]
            &&& b.subrange(313, 313 + p[11].len() as int) == p[11]
        }),
{
    let b = p[0] + p[1] + p[2] + p[3] + p[4] + p[5] + p[6] + p[7] + p[8] + p[9] + p[10] + p[11]
        + p[12];
    assert(b.subrange(0, 32) =~= p[0]);
    assert(b.subrange(32, 64) =~= p[1]);
    assert(b.subrange(64, 96) =~= p[2]);
    assert(b.subrange(96, 128) =~= p[3]);
    assert(b.subrange(128, 160) =~= p[4]);
    assert(b.subrange(160, 192) =~= p[5]);
    assert(b.subrange(192, 196) =~= p[6]);
    assert(b.subrange(197, 253) =~= p[8]);
    assert(b.subrange(253, 309) =~= p[9]);
    assert(b.subrange(309, 313) =~= p[10]);
    assert(b.subrange(313, 313 + p[11].len() as int) =~= p[11]);
}

/// Each field of `v` stands at its place in `b`, as it is written.
#[verifier::opaque]
spec fn written_in(v: BufferRelayer, b: Seq<u8>) -> bool {
    &&& b.len() >= 313 + v.result.len()
    &&& b.subrange(0, 32) == v.name
    &&& b.subrange(32, 64) == v.queue_pubkey
    &&& b.subrange(64, 96) == v.escrow
    &&& b.subrange(96, 128) == v.authority
    &&& b.subrange(128, 160) == v.job_pubkey
    &&& b.subrange(160, 192) == v.job_hash
    &&& b.subrange(192, 196) == u32_le(v.min_update_delay_seconds)
    &&& b[196] == flag_byte(v.is_locked)
    &&& b.subrange(197, 253) == round_bytes(v.current_round)
    &&& b.subrange(253, 309) == round_bytes(v.latest_confirmed_round)
    &&& b.subrange(309, 313) == u32_le(v.result.len() as u32)
    &&& b.subrange(313, 313 + v.result.len() as int) == v.result
}

/// Each field of a record stands at its place in the bytes that the record
/// is written as, whatever follows them.
proof fn lemma_fields_in_bytes(v: BufferRelayer, rest: Seq<u8>)
    requires
        v.well_formed(),
    ensures
        record_bytes(v).len() == HEAD_LEN + v.result.len(),
        written_in(v, record_bytes(v) + rest),
{
    reveal(written_in);
    let p = seq![
        v.name,
        v.queue_pubkey,
        v.escrow,
        v.authority,
        v.job_pubkey,
        v.job_hash,
        u32_le(v.min_update_delay_seconds),
        seq![flag_byte(v.is_locked)],
        round_bytes(v.current_round),
        round_bytes(v.latest_confirmed_round),
        u32_le(v.result.len() as u32),
        v.result,
        rest,
    ];
    lemma_u32_read_back(v.min_update_delay_seconds);
    lemma_u32_read_back(v.result.len() as u32);
    lemma_round_round_trip(v.current_round, Seq::empty());
    lemma_round_round_trip(v.latest_confirmed_round, Seq::empty());
    lemma_places(p);
}

/// Bytes in which each field of a record stands at its place are read as
/// that record.
proof fn lemma_read_as_written(v: BufferRelayer, b: Seq<u8>)
    requires
        v.well_formed(),
        written_in(v, b),
    ensures
        holds_record(b),
        record_of(b) == v,
{
    reveal(written_in);
    lemma_u32_read_back(v.min_update_delay_seconds);
    lemma_u32_read_back(v.result.len() as u32);
    lemma_round_round_trip(v.current_round, Seq::empty());
    lemma_round_round_trip(v.latest_confirmed_round, Seq::empty());
    assert(round_bytes(v.current_round) + Seq::<u8>::empty() =~= round_bytes(v.current_round));
    assert(round_bytes(v.latest_confirmed_round) + Seq::<u8>::empty() =~= round_bytes(
        v.latest_confirmed_round,
    ));
    assert(payload_len(b) == v.result.len());
    assert(record_of(b) =~= v);
}

/// A buffer that holds the tag and then a whole record is read as that
/// record.
proof fn lemma_read_behind_tag(b: Seq<u8>)
    requires
        holds_record(b),
    ensures
        decoded(tag() + b) matches Ok(v) && v == record_of(b),
{
    let whole = tag() + b;
    assert(whole.subrange(0, 8) =~= tag());
    assert(whole.skip(8) =~= b);
}

/// A record that is written out and read again is the record written,
/// field for field, whatever follows it in the buffer; this holds behind
/// the tag too.
pub proof fn lemma_record_round_trip(v: BufferRelayer, rest: Seq<u8>)
    requires
        v.well_formed(),
    ensures
        record_bytes(v).len() == HEAD_LEN + v.result.len(),
        holds_record(record_bytes(v) + rest),
        record_of(record_bytes(v) + rest) == v,
        decoded(tag() + (record_bytes(v) + rest)) matches Ok(r) && r == v,
{
    lemma_fields_in_bytes(v, rest);
    lemma_read_as_written(v, record_bytes(v) + rest);
    lemma_read_behind_tag(record_bytes(v) + rest);
}

/// The view of a record is well formed, unless its payload is too long for
/// its count to be written.
pub proof fn lemma_view_well_formed(account: BufferRelayerAccountData)
    requires
        account.result@.len() <= u32::MAX,
    ensures
        account@.well_formed(),
{
}

/// What is read after `at` bytes were taken is what stands at `at`, and
/// taking it leaves what stands behind it.
proof fn lemma_step(input: Seq<u8>, at: int, width: int)
    requires
        0 <= at,
        0 <= width,
        at + width <= input.len(),
    ensures
        input.skip(at).len() == input.len() - at,
        input.skip(at).take(width) == input.subrange(at, at + width),
        input.skip(at).skip(width) == input.skip(at + width),
        input.skip(at)[0] == input[at] || width == 0,
{
    assert(input.skip(at).take(width) =~= input.subrange(at, at + width));
    assert(input.skip(at).skip(width) =~= input.skip(at + width));
}

/// The round read after `at` bytes were taken is the round that stands at
/// `at`.
proof fn lemma_round_at(input: Seq<u8>, at: int)
    requires
        0 <= at,
        at + 56 <= input.len(),
    ensures
        round_of(input.skip(at)) == round_of(input.subrange(at, at + 56)),
{
    let a = input.skip(at);
    let b = input.subrange(at, at + 56);
    assert(a.subrange(0, 4) =~= b.subrange(0, 4));
    assert(a.subrange(4, 8) =~= b.subrange(4, 8));
    assert(a.subrange(8, 16) =~= b.subrange(8, 16));
    assert(a.subrange(16, 24) =~= b.subrange(16, 24));
    assert(a.subrange(24, 56) =~= b.subrange(24, 56));
}

/// The payload read after the fixed fields were taken is the payload that
/// stands behind the head.
proof fn lemma_payload_at(input: Seq<u8>)
    requires
        input.len() >= HEAD_LEN,
        input.len() >= HEAD_LEN + payload_len(input),
    ensures
        input.skip(309).take(4) == input.subrange(309, 313),
        input.skip(309).subrange(4, 4 + payload_len(input)) == input.subrange(
            313,
            313 + payload_len(input),
        ),
        input.skip(309).skip(4 + payload_len(input)) == input.skip(313 + payload_len(input)),
{
    let n = payload_len(input);
    assert(input.skip(309).take(4) =~= input.subrange(309, 313));
    assert(input.skip(309).subrange(4, 4 + n) =~= input.subrange(313, 313 + n));
    assert(input.skip(309).skip(4 + n) =~= input.skip(313 + n));
}

impl Default for BufferRelayerRound {
    /// A round in which nothing has happened: every number zero.
    fn default() -> (round: BufferRelayerRound)
        ensures
            round.num_success == 0,
            round.num_error == 0,
            round.round_open_slot == 0,
            round.round_open_timestamp == 0,
            round.oracle_pubkey@ == Seq::new(32, |i: int| 0u8),
    {
        let round = BufferRelayerRound {
            num_success: 0,
            num_error: 0,
            round_open_slot: 0,
            round_open_timestamp: 0,
            oracle_pubkey: [0u8; 32],
        };
        assert(round.oracle_pubkey@ =~= Seq::new(32, |i: int| 0u8));
        round
    }
}

impl BufferRelayerRound {
    /// Appends the 56 bytes of the round to `writer`.
    pub fn serialize(&self, writer: &mut Vec<u8>)
        ensures
            final(writer)@ == old(writer)@ + round_bytes(self@),
    {
        put_u32(writer, self.num_success);
        put_u32(writer, self.num_error);
        put_u64(writer, self.round_open_slot);
        put_i64(writer, self.round_open_timestamp);
        put_bytes(writer, self.oracle_pubkey.as_slice());
        proof {
            assert(writer@ =~= old(writer)@ + round_bytes(self@));
        }
    }

    /// Takes a round off the front of `reader`. A reader with fewer than 56
    /// bytes is left as it is.
    pub fn deserialize_reader(reader: &mut &[u8]) -> (res: Result<BufferRelayerRound, AccountError>)
        ensures
            match res {
                Ok(round) => {
                    &&& old(reader)@.len() >= ROUND_LEN
                    &&& round@ == round_of(old(reader)@)
                    &&& final(reader)@ == old(reader)@.skip(ROUND_LEN as int)
                },
                Err(e) => {
                    &&& old(reader)@.len() < ROUND_LEN
                    &&& e == AccountError::ReadExhausted
                    &&& final(reader)@ == old(reader)@
                },
            },
    {
        let ghost input = reader@;
        if reader.len() < ROUND_LEN {
            return Err(AccountError::ReadExhausted);
        }
        let num_success = take_u32(reader)?;
        let num_error = take_u32(reader)?;
        let round_open_slot = take_u64(reader)?;
        let round_open_timestamp = take_i64(reader)?;
        let oracle_pubkey = take_array::<32>(reader)?;
        let round = BufferRelayerRound {
            num_success,
            num_error,
            round_open_slot,
            round_open_timestamp,
            oracle_pubkey,
        };
        proof {
            assert(input.take(4) =~= input.subrange(0, 4));
            assert(input.skip(4).take(4) =~= input.subrange(4, 8));
            assert(input.skip(4).skip(4).take(8) =~= input.subrange(8, 16));
            assert(input.skip(4).skip(4).skip(8).take(8) =~= input.subrange(16, 24));
            assert(input.skip(4).skip(4).skip(8).skip(8).take(32) =~= input.subrange(24, 56));
            assert(input.skip(4).skip(4).skip(8).skip(8).skip(32) =~= input.skip(56));
            assert(round@ =~= round_of(input));
        }
        Ok(round)
    }
}

impl Default for BufferRelayerAccountData {
    /// An account with nothing in it: every byte zero, both rounds empty,
    /// no payload.
    fn default() -> (account: BufferRelayerAccountData)
        ensures
            account.name@ == Seq::new(32, |i: int| 0u8),
            account.queue_pubkey@ == Seq::new(32, |i: int| 0u8),
            account.escrow@ == Seq::new(32, |i: int| 0u8),
            account.authority@ == Seq::new(32, |i: int| 0u8),
            account.job_pubkey@ == Seq::new(32, |i: int| 0u8),
            account.job_hash@ == Seq::new(32, |i: int| 0u8),
            account.min_update_delay_seconds == 0,
            !account.is_locked,
            account.current_round.num_success == 0,
            account.current_round.num_error == 0,
            account.current_round.round_open_slot == 0,
            account.current_round.round_open_timestamp == 0,
            account.current_round.oracle_pubkey@ == Seq::new(32, |i: int| 0u8),
            account.latest_confirmed_round == account.current_round,
            account.result@ == Seq::<u8>::empty(),
    {
        let zero: [u8; 32] = [0u8; 32];
        assert(zero@ =~= Seq::new(32, |i: int| 0u8));
        let round = BufferRelayerRound {
            num_success: 0,
            num_error: 0,
            round_open_slot: 0,
            round_open_timestamp: 0,
            oracle_pubkey: zero,
        };
        BufferRelayerAccountData {
            name: zero,
            queue_pubkey: zero,
            escrow: zero,
            authority: zero,
            job_pubkey: zero,
            job_hash: zero,
            min_update_delay_seconds: 0,
            is_locked: false,
            current_round: round,
            latest_confirmed_round: round,
            result: Vec::new(),
        }
    }
}

impl BufferRelayerAccountData {
    /// The tag that marks an account as a buffer relayer.
    pub fn discriminator() -> (d: [u8; 8])
        ensures
            d@ == tag(),
    {
        let d: [u8; 8] = [50, 35, 51, 115, 169, 219, 158, 52];
        assert(d@ =~= tag());
        d
    }

    /// Takes a record off the front of `reader`, field by field. A reader
    /// that does not hold a whole record is left as it is.
    pub fn deserialize(reader: &mut &[u8]) -> (res: Result<BufferRelayerAccountData, AccountError>)
        ensures
            match res {
                Ok(account) => {
                    &&& holds_record(old(reader)@)
                    &&& account@ == record_of(old(reader)@)
                    &&& final(reader)@ == old(reader)@.skip(HEAD_LEN + payload_len(old(reader)@))
                },
                Err(e) => {
                    &&& !holds_record(old(reader)@)
                    &&& e == AccountError::ReadExhausted
                    &&& final(reader)@ == old(reader)@
                },
            },
    {
        let ghost input = reader@;
        let mut rest: &[u8] = *reader;
        if rest.len() < HEAD_LEN {
            return Err(AccountError::ReadExhausted);
        }
        proof {
            assert(rest@ =~= input.skip(0));
            lemma_step(input, 0, 32);
        }
        let name = take_array::<32>(&mut rest)?;
        proof {
            lemma_step(input, 32, 32);
        }
        let queue_pubkey = take_array::<32>(&mut rest)?;
        proof {
            lemma_step(input, 64, 32);
        }
        let escrow = take_array::<32>(&mut rest)?;
        proof {
            lemma_step(input, 96, 32);
        }
        let authority = take_array::<32>(&mut rest)?;
        proof {
            lemma_step(input, 128, 32);
        }
        let job_pubkey = take_array::<32>(&mut rest)?;
        proof {
            lemma_step(input, 160, 32);
        }
        let job_hash = take_array::<32>(&mut rest)?;
        proof {
            lemma_step(input, 192, 4);
        }
        let min_update_delay_seconds = take_u32(&mut rest)?;
        proof {
            lemma_step(input, 196, 1);
        }
        let is_locked = take_flag(&mut rest)?;
        proof {
            lemma_step(input, 197, 56);
            lemma_round_at(input, 197);
        }
        let current_round = BufferRelayerRound::deserialize_reader(&mut rest)?;
        proof {
            lemma_step(input, 253, 56);
            lemma_round_at(input, 253);
        }
        let latest_confirmed_round = BufferRelayerRound::deserialize_reader(&mut rest)?;
        proof {
            lemma_step(input, 309, 4);
            assert(rest@ == input.skip(309));
        }
        let result = take_prefixed(&mut rest)?;
        proof {
            lemma_payload_at(input);
        }
        let account = BufferRelayerAccountData {
            name,
            queue_pubkey,
            escrow,
            authority,
            job_pubkey,
            job_hash,
            min_update_delay_seconds,
            is_locked,
            current_round,
            latest_confirmed_round,
            result,
        };
        proof {
            assert(account@ =~= record_of(input));
        }
        *reader = rest;
        Ok(account)
    }

    /// Reads the bytes of an account as a buffer relayer.
    ///
    /// Bytes behind the payload are not looked at.
    pub fn new(data: &[u8]) -> (res: Result<Box<BufferRelayerAccountData>, AccountError>)
        ensures
            res is Ok <==> data@.len() >= 8 && data@.subrange(0, 8) == tag() && holds_record(
                data@.skip(8),
            ),
            data@.len() < 8 ==> (res matches Err(e) && e == AccountError::AccountTooShort),
            data@.len() >= 8 && data@.subrange(0, 8) != tag() ==> (res matches Err(e) && e
                == AccountError::DiscriminatorMismatch),
            match res {
                Ok(account) => (decoded(data@) matches Ok(v) && v == account@),
                Err(e) => (decoded(data@) matches Err(d) && d == e),
            },
    {
        let expected = Self::discriminator();
        let mut reader: &[u8] = strip_tag(data, &expected)?;
        let account = Self::deserialize(&mut reader)?;
        Ok(Box::new(account))
    }

    /// The payload of the last confirmed round.
    pub fn get_result(&self) -> (result: &Vec<u8>)
        ensures
            result == &self.result,
            result@ == self@.result,
    {
        &self.result
    }

    /// Tells whether the last confirmed round is fresh enough: fails with
    /// `StaleFeed` where more than `max_staleness` seconds lie between the
    /// opening of that round and `unix_timestamp`, and nowhere else.
    pub fn check_staleness(&self, unix_timestamp: i64, max_staleness: i64) -> (res: Result<
        (),
        AccountError,
    >)
        ensures
            res is Err <==> unix_timestamp - self.latest_confirmed_round.round_open_timestamp
                > max_staleness,
            res matches Err(e) ==> e == AccountError::StaleFeed,
    {
        let staleness: i128 = (unix_timestamp as i128) - (
        self.latest_confirmed_round.round_open_timestamp as i128);
        if staleness > (max_staleness as i128) {
            return Err(AccountError::StaleFeed);
        }
        Ok(())
    }
}

} // verus!
