//! The attestation queue account: a record of fixed size whose fields lie
//! one after the other, without gaps, behind the account's type tag.

use crate::error::AccountError;
use crate::wire::{
    flag_byte, i64_le, le_i64, le_u32, lemma_i64_read_back, lemma_i64_written_back, lemma_u32_read_back,
    lemma_u32_written_back, read_array, read_i64, read_rows, read_u32, same_bytes, strip_tag,
    u32_le, TAG_LEN,
};
use vstd::prelude::*;

verus! {

/// How many bytes the record takes behind the tag.
pub const RECORD_LEN: usize = 6230;

/// How many enclave measurements the queue has room for.
pub const MAX_ENCLAVES: usize = 32;

/// The tag that marks an account as an attestation queue.
pub open spec fn tag() -> Seq<u8> {
    seq![192u8, 53u8, 130u8, 67u8, 234u8, 207u8, 39u8, 171u8]
}

/// A snapshot of an attestation queue, as the ledger held it when the bytes
/// were fetched.
#[derive(Clone, Copy, Debug)]
pub struct AttestationQueueAccountData {
    /// Who may add and remove allowed enclave measurements.
    pub authority: [u8; 32],
    /// The allowed enclave measurements; only the first `mr_enclaves_len`
    /// of them count.
    pub mr_enclaves: [[u8; 32]; 32],
    /// How many of `mr_enclaves` are in use.
    pub mr_enclaves_len: u32,
    /// The verifier nodes that are verified and have reported recently;
    /// only the first `data_len` of them count.
    pub data: [[u8; 32]; 128],
    /// How many of `data` are in use.
    pub data_len: u32,
    /// Seconds without a heartbeat after which the authority may add a node
    /// by force.
    pub allow_authority_override_after: i64,
    /// Whether a node with a proper measurement still needs the authority's
    /// consent to report.
    pub require_authority_heartbeat_permission: bool,
    /// Whether a function needs a permission to use the queue before it runs.
    pub require_usage_permissions: bool,
    /// Seconds after which an enclave has to be verified anew.
    pub max_quote_verification_age: i64,
    /// What a verifier is paid for an attestation.
    pub reward: u32,
    /// When a verifier last reported, in seconds since the epoch.
    pub last_heartbeat: i64,
    /// Seconds without a report after which a node counts as gone.
    pub node_timeout: i64,
    /// The place in `data` of the verifier whose turn it is.
    pub curr_idx: u32,
    /// The place in `data` that is next looked at for stale verifiers.
    pub gc_idx: u32,
    /// Reserved.
    pub _ebuf: [u8; 1024],
}

/// What an attestation queue record says, as mathematical values.
#[verifier::ext_equal]
pub struct AttestationQueue {
    pub authority: Seq<u8>,
    pub mr_enclaves: Seq<Seq<u8>>,
    pub mr_enclaves_len: u32,
    pub data: Seq<Seq<u8>>,
    pub data_len: u32,
    pub allow_authority_override_after: i64,
    pub require_authority_heartbeat_permission: bool,
    pub require_usage_permissions: bool,
    pub max_quote_verification_age: i64,
    pub reward: u32,
    pub last_heartbeat: i64,
    pub node_timeout: i64,
    pub curr_idx: u32,
    pub gc_idx: u32,
    pub ebuf: Seq<u8>,
}

impl View for AttestationQueueAccountData {
    type V = AttestationQueue;

    open spec fn view(&self) -> AttestationQueue {
        AttestationQueue {
            authority: self.authority@,
            mr_enclaves: Seq::new(32, |i: int| self.mr_enclaves@[i]@),
            mr_enclaves_len: self.mr_enclaves_len,
            data: Seq::new(128, |i: int| self.data@[i]@),
            data_len: self.data_len,
            allow_authority_override_after: self.allow_authority_override_after,
            require_authority_heartbeat_permission: self.require_authority_heartbeat_permission,
            require_usage_permissions: self.require_usage_permissions,
            max_quote_verification_age: self.max_quote_verification_age,
            reward: self.reward,
            last_heartbeat: self.last_heartbeat,
            node_timeout: self.node_timeout,
            curr_idx: self.curr_idx,
            gc_idx: self.gc_idx,
            ebuf: self._ebuf@,
        }
    }
}

impl AttestationQueue {
    /// Every table has its full number of entries, and every entry its 32
    /// bytes. This holds of the view of every record.
    pub open spec fn well_formed(self) -> bool {
        &&& self.authority.len() == 32
        &&& self.mr_enclaves.len() == 32
        &&& forall|i: int| 0 <= i < 32 ==> (#[trigger] self.mr_enclaves[i]).len() == 32
        &&& self.data.len() == 128
        &&& forall|i: int| 0 <= i < 128 ==> (#[trigger] self.data[i]).len() == 32
        &&& self.ebuf.len() == 1024
    }

    /// The measurements that count: the first `mr_enclaves_len` of the
    /// table, or all of it where the length says more than it holds.
    pub open spec fn allowed_enclaves(self) -> Seq<Seq<u8>> {
        if self.mr_enclaves_len <= self.mr_enclaves.len() {
            self.mr_enclaves.take(self.mr_enclaves_len as int)
        } else {
            self.mr_enclaves
        }
    }
}

/// The record that the first 6230 bytes of `body` hold: each field is what
/// stands at its place, numbers least significant byte first, a flag set by
/// any byte but zero.
pub open spec fn record_of(body: Seq<u8>) -> AttestationQueue
    recommends
        body.len() >= RECORD_LEN,
{
    AttestationQueue {
        authority: body.subrange(0, 32),
        mr_enclaves: Seq::new(32, |i: int| body.subrange(32 + 32 * i, 64 + 32 * i)),
        mr_enclaves_len: le_u32(body.subrange(1056, 1060)),
        data: Seq::new(128, |i: int| body.subrange(1060 + 32 * i, 1092 + 32 * i)),
        data_len: le_u32(body.subrange(5156, 5160)),
        allow_authority_override_after: le_i64(body.subrange(5160, 5168)),
        require_authority_heartbeat_permission: body[5168] != 0,
        require_usage_permissions: body[5169] != 0,
        max_quote_verification_age: le_i64(body.subrange(5170, 5178)),
        reward: le_u32(body.subrange(5178, 5182)),
        last_heartbeat: le_i64(body.subrange(5182, 5190)),
        node_timeout: le_i64(body.subrange(5190, 5198)),
        curr_idx: le_u32(body.subrange(5198, 5202)),
        gc_idx: le_u32(body.subrange(5202, 5206)),
        ebuf: body.subrange(5206, 6230),
    }
}

/// What reading `data` as an attestation queue account comes to: the
/// record behind the tag, or the first reason why there is none.
pub open spec fn decoded(data: Seq<u8>) -> Result<AttestationQueue, AccountError> {
    if data.len() < TAG_LEN {
        Err(AccountError::AccountTooShort)
    } else if data.subrange(0, TAG_LEN as int) != tag() {
        Err(AccountError::DiscriminatorMismatch)
    } else if data.len() < TAG_LEN + RECORD_LEN {
        Err(AccountError::ReadExhausted)
    } else {
        Ok(record_of(data.skip(TAG_LEN as int)))
    }
}

/// The rows of a table laid out one after the other, each `width` bytes.
pub open spec fn joined(rows: Seq<Seq<u8>>, width: int) -> Seq<u8> {
    Seq::new((rows.len() * width) as nat, |k: int| rows[k / width][k % width])
}

/// The 6230 bytes that a record is written as: its fields in their order,
/// without gaps, numbers least significant byte first.
pub open spec fn record_bytes(v: AttestationQueue) -> Seq<u8>
    recommends
        v.well_formed(),
{
    v.authority + joined(v.mr_enclaves, 32) + u32_le(v.mr_enclaves_len) + joined(v.data, 32)
        + u32_le(v.data_len) + i64_le(v.allow_authority_override_after) + seq![
        flag_byte(v.require_authority_heartbeat_permission),
        flag_byte(v.require_usage_permissions),
    ] + i64_le(v.max_quote_verification_age) + u32_le(v.reward) + i64_le(v.last_heartbeat)
        + i64_le(v.node_timeout) + u32_le(v.curr_idx) + u32_le(v.gc_idx) + v.ebuf
}

/// Each row of a table is found again where it was laid out.
proof fn lemma_rows_of_joined(rows: Seq<Seq<u8>>)
    requires
        forall|i: int| 0 <= i < rows.len() ==> (#[trigger] rows[i]).len() == 32,
    ensures
        joined(rows, 32).len() == 32 * rows.len(),
        forall|i: int|
            0 <= i < rows.len() ==> #[trigger] joined(rows, 32).subrange(32 * i, 32 * i + 32)
                == rows[i],
{
    let flat = joined(rows, 32);
    assert forall|i: int| 0 <= i < rows.len() implies #[trigger] flat.subrange(32 * i, 32 * i + 32)
        == rows[i] by {
        assert forall|j: int| 0 <= j < 32 implies flat[32 * i + j] == rows[i][j] by {
            let k = 32 * i + j;
            assert(k / 32 == i && k % 32 == j);
        }
        assert(flat.subrange(32 * i, 32 * i + 32) =~= rows[i]);
    }
}

/// Fourteen runs of bytes with the widths of the record's fields, and any
/// run behind them, are found again, each at its place, in the run they
/// make.
proof fn lemma_places(p: Seq<Seq<u8>>)
    requires
        p.len() == 15,
        p[0].len() == 32,
        p[1].len() == 1024,
        p[2].len() == 4,
        p[3].len() == 4096,
        p[4].len() == 4,
        p[5].len() == 8,
        p[6].len() == 2,
        p[7].len() == 8,
        p[8].len() == 4,
        p[9].len() == 8,
        p[10].len() == 8,
        p[11].len() == 4,
        p[12].len() == 4,
        p[13].len() == 1024,
    ensures
        ({
            let b = p[0] + p[1] + p[2] + p[3] + p[4] + p[5] + p[6] + p[7] + p[8] + p[9] + p[10]
                + p[11] + p[12] + p[13] + p[14];
            &&& b.len() == 6230 + p[14].len()
            &&& b.subrange(0, 32) == p[0]
            &&& b.subrange(32, 1056) == p[1]
            &&& b.subrange(1056, 1060) == p[2]
            &&& b.subrange(1060, 5156) == p[3]
            &&& b.subrange(5156, 5160) == p[4]
            &&& b.subrange(5160, 5168) == p[5]
            &&& b.subrange(5168, 5170) == p[6]
            &&& b.subrange(5170, 5178) == p[7]
            &&& b.subrange(5178, 5182) == p[8]
            &&& b.subrange(5182, 5190) == p[9]
            &&& b.subrange(5190, 5198) == p[10]
            &&& b.subrange(5198, 5202) == p[11]
            &&& b.subrange(5202, 5206) == p[12]
            &&& b.subrange(5206, 6230) == p[13]
        }),
{
    let b = p[0] + p[1] + p[2] + p[3] + p[4] + p[5] + p[6] + p[7] + p[8] + p[9] + p[10] + p[11]
        + p[12] + p[13] + p[14];
    assert(b.subrange(0, 32) =~= p[0]);
    assert(b.subrange(32, 1056) =~= p[1]);
    assert(b.subrange(1056, 1060) =~= p[2]);
    assert(b.subrange(1060, 5156) =~= p[3]);
    assert(b.subrange(5156, 5160) =~= p[4]);
    assert(b.subrange(5160, 5168) =~= p[5]);
    assert(b.subrange(5168, 5170) =~= p[6]);
    assert(b.subrange(5170, 5178) =~= p[7]);
    assert(b.subrange(5178, 5182) =~= p[8]);
    assert(b.subrange(5182, 5190) =~= p[9]);
    assert(b.subrange(5190, 5198) =~= p[10]);
    assert(b.subrange(5198, 5202) =~= p[11]);
    assert(b.subrange(5202, 5206) =~= p[12]);
    assert(b.subrange(5206, 6230) =~= p[13]);
}

/// Each field of `v` stands at its place in `b`, as it is written.
#[verifier::opaque]
spec fn written_in(v: AttestationQueue, b: Seq<u8>) -> bool {
    &&& b.len() >= 6230
    &&& b.subrange(0, 32) == v.authority
    &&& forall|i: int|
        0 <= i < 32 ==> #[trigger] b.subrange(32 + 32 * i, 64 + 32 * i) == v.mr_enclaves[i]
    &&& b.subrange(1056, 1060) == u32_le(v.mr_enclaves_len)
    &&& forall|i: int|
        0 <= i < 128 ==> #[trigger] b.subrange(1060 + 32 * i, 1092 + 32 * i) == v.data[i]
    &&& b.subrange(5156, 5160) == u32_le(v.data_len)
    &&& b.subrange(5160, 5168) == i64_le(v.allow_authority_override_after)
    &&& b[5168] == flag_byte(v.require_authority_heartbeat_permission)
    &&& b[5169] == flag_byte(v.require_usage_permissions)
    &&& b.subrange(5170, 5178) == i64_le(v.max_quote_verification_age)
    &&& b.subrange(5178, 5182) == u32_le(v.reward)
    &&& b.subrange(5182, 5190) == i64_le(v.last_heartbeat)
    &&& b.subrange(5190, 5198) == i64_le(v.node_timeout)
    &&& b.subrange(5198, 5202) == u32_le(v.curr_idx)
    &&& b.subrange(5202, 5206) == u32_le(v.gc_idx)
    &&& b.subrange(5206, 6230) == v.ebuf
}

/// Each field of a record stands at its place in the bytes that the record
/// is written as, whatever follows them.
proof fn lemma_fields_in_bytes(v: AttestationQueue, rest: Seq<u8>)
    requires
        v.well_formed(),
    ensures
        record_bytes(v).len() == RECORD_LEN,
        written_in(v, record_bytes(v) + rest),
{
    reveal(written_in);
    let b = record_bytes(v) + rest;
    let flags = seq![
        flag_byte(v.require_authority_heartbeat_permission),
        flag_byte(v.require_usage_permissions),
    ];
    let p = seq![
        v.authority,
        joined(v.mr_enclaves, 32),
        u32_le(v.mr_enclaves_len),
        joined(v.data, 32),
        u32_le(v.data_len),
        i64_le(v.allow_authority_override_after),
        flags,
        i64_le(v.max_quote_verification_age),
        u32_le(v.reward),
        i64_le(v.last_heartbeat),
        i64_le(v.node_timeout),
        u32_le(v.curr_idx),
        u32_le(v.gc_idx),
        v.ebuf,
        rest,
    ];
    lemma_u32_read_back(v.mr_enclaves_len);
    lemma_u32_read_back(v.data_len);
    lemma_u32_read_back(v.reward);
    lemma_u32_read_back(v.curr_idx);
    lemma_u32_read_back(v.gc_idx);
    lemma_i64_read_back(v.allow_authority_override_after);
    lemma_i64_read_back(v.max_quote_verification_age);
    lemma_i64_read_back(v.last_heartbeat);
    lemma_i64_read_back(v.node_timeout);
    lemma_rows_of_joined(v.mr_enclaves);
    lemma_rows_of_joined(v.data);
    lemma_places(p);
    assert forall|i: int| 0 <= i < 32 implies #[trigger] b.subrange(32 + 32 * i, 64 + 32 * i)
        == v.mr_enclaves[i] by {
        assert(b.subrange(32 + 32 * i, 64 + 32 * i) =~= b.subrange(32, 1056).subrange(
            32 * i,
            32 * i + 32,
        ));
    }
    assert forall|i: int| 0 <= i < 128 implies #[trigger] b.subrange(1060 + 32 * i, 1092 + 32 * i)
        == v.data[i] by {
        assert(b.subrange(1060 + 32 * i, 1092 + 32 * i) =~= b.subrange(1060, 5156).subrange(
            32 * i,
            32 * i + 32,
        ));
    }
    assert(b[5168] == b.subrange(5168, 5170)[0]);
    assert(b[5169] == b.subrange(5168, 5170)[1]);
}

/// Bytes in which each field of a record stands at its place are read as
/// that record.
proof fn lemma_read_as_written(v: AttestationQueue, b: Seq<u8>)
    requires
        v.well_formed(),
        written_in(v, b),
    ensures
        b.len() >= RECORD_LEN,
        record_of(b) == v,
{
    reveal(written_in);
    lemma_u32_read_back(v.mr_enclaves_len);
    lemma_u32_read_back(v.data_len);
    lemma_u32_read_back(v.reward);
    lemma_u32_read_back(v.curr_idx);
    lemma_u32_read_back(v.gc_idx);
    lemma_i64_read_back(v.allow_authority_override_after);
    lemma_i64_read_back(v.max_quote_verification_age);
    lemma_i64_read_back(v.last_heartbeat);
    lemma_i64_read_back(v.node_timeout);
    let r = record_of(b);
    assert(r.mr_enclaves =~= v.mr_enclaves);
    assert(r.data =~= v.data);
    assert(r =~= v);
}

/// A buffer that holds the tag and then at least a record's worth of bytes
/// is read as the record that those bytes hold.
proof fn lemma_read_behind_tag(b: Seq<u8>)
    requires
        b.len() >= RECORD_LEN,
    ensures
        decoded(tag() + b) matches Ok(v) && v == record_of(b),
{
    let whole = tag() + b;
    assert(whole.subrange(0, 8) =~= tag());
    assert(whole.skip(8) =~= b);
}

/// A record that is written out and read again is the record written,
/// field for field; this holds behind the tag too, whatever follows the
/// record in the buffer.
pub proof fn lemma_record_round_trip(v: AttestationQueue, rest: Seq<u8>)
    requires
        v.well_formed(),
    ensures
        record_bytes(v).len() == RECORD_LEN,
        record_of(record_bytes(v) + rest) == v,
        decoded(tag() + (record_bytes(v) + rest)) matches Ok(r) && r == v,
{
    lemma_fields_in_bytes(v, rest);
    lemma_read_as_written(v, record_bytes(v) + rest);
    lemma_read_behind_tag(record_bytes(v) + rest);
}

/// Two runs of bytes that agree in a part agree in each byte of that part.
proof fn lemma_same_in_part(x: Seq<u8>, y: Seq<u8>, from: int, to: int, k: int)
    requires
        0 <= from <= k < to,
        to <= x.len(),
        to <= y.len(),
        x.subrange(from, to) == y.subrange(from, to),
    ensures
        x[k] == y[k],
{
    assert(x[k] == x.subrange(from, to)[k - from]);
    assert(y[k] == y.subrange(from, to)[k - from]);
}

/// Two runs of bytes in which the fields of one record stand at their
/// places agree in their first 6230 bytes.
proof fn lemma_one_way_to_write(v: AttestationQueue, x: Seq<u8>, y: Seq<u8>)
    requires
        written_in(v, x),
        written_in(v, y),
    ensures
        x.take(RECORD_LEN as int) == y.take(RECORD_LEN as int),
{
    reveal(written_in);
    assert forall|k: int| 0 <= k < 6230 implies x[k] == y[k] by {
        if k < 32 {
            lemma_same_in_part(x, y, 0, 32, k);
        } else if k < 1056 {
            let i = (k - 32) / 32;
            assert(x.subrange(32 + 32 * i, 64 + 32 * i) == v.mr_enclaves[i]);
            assert(y.subrange(32 + 32 * i, 64 + 32 * i) == v.mr_enclaves[i]);
            lemma_same_in_part(x, y, 32 + 32 * i, 64 + 32 * i, k);
        } else if k < 1060 {
            lemma_same_in_part(x, y, 1056, 1060, k);
        } else if k < 5156 {
            let i = (k - 1060) / 32;
            assert(x.subrange(1060 + 32 * i, 1092 + 32 * i) == v.data[i]);
            assert(y.subrange(1060 + 32 * i, 1092 + 32 * i) == v.data[i]);
            lemma_same_in_part(x, y, 1060 + 32 * i, 1092 + 32 * i, k);
        } else if k < 5160 {
            lemma_same_in_part(x, y, 5156, 5160, k);
        } else if k < 5168 {
            lemma_same_in_part(x, y, 5160, 5168, k);
        } else if k < 5170 {
        } else if k < 5178 {
            lemma_same_in_part(x, y, 5170, 5178, k);
        } else if k < 5182 {
            lemma_same_in_part(x, y, 5178, 5182, k);
        } else if k < 5190 {
            lemma_same_in_part(x, y, 5182, 5190, k);
        } else if k < 5198 {
            lemma_same_in_part(x, y, 5190, 5198, k);
        } else if k < 5202 {
            lemma_same_in_part(x, y, 5198, 5202, k);
        } else if k < 5206 {
            lemma_same_in_part(x, y, 5202, 5206, k);
        } else {
            lemma_same_in_part(x, y, 5206, 6230, k);
        }
    }
    assert(x.take(RECORD_LEN as int) =~= y.take(RECORD_LEN as int));
}

/// The fields of the record that is read from `b` stand at their places in
/// `b`, where both flags of `b` are 0 or 1.
proof fn lemma_written_as_read(b: Seq<u8>)
    requires
        b.len() >= RECORD_LEN,
        b[5168] <= 1,
        b[5169] <= 1,
    ensures
        record_of(b).well_formed(),
        written_in(record_of(b), b),
{
    reveal(written_in);
    lemma_u32_written_back(b.subrange(1056, 1060));
    lemma_u32_written_back(b.subrange(5156, 5160));
    lemma_i64_written_back(b.subrange(5160, 5168));
    lemma_i64_written_back(b.subrange(5170, 5178));
    lemma_u32_written_back(b.subrange(5178, 5182));
    lemma_i64_written_back(b.subrange(5182, 5190));
    lemma_i64_written_back(b.subrange(5190, 5198));
    lemma_u32_written_back(b.subrange(5198, 5202));
    lemma_u32_written_back(b.subrange(5202, 5206));
}

/// Bytes that are read as a record and written again are the bytes read,
/// where both flags among them are 0 or 1: the record keeps all that its
/// 6230 bytes say.
pub proof fn lemma_bytes_round_trip(b: Seq<u8>)
    requires
        b.len() >= RECORD_LEN,
        b[5168] <= 1,
        b[5169] <= 1,
    ensures
        record_of(b).well_formed(),
        record_bytes(record_of(b)) == b.take(RECORD_LEN as int),
{
    let v = record_of(b);
    lemma_written_as_read(b);
    lemma_fields_in_bytes(v, Seq::empty());
    lemma_one_way_to_write(v, record_bytes(v) + Seq::empty(), b);
    assert(record_bytes(v) + Seq::<u8>::empty() =~= record_bytes(v));
    assert(record_bytes(v).take(RECORD_LEN as int) =~= record_bytes(v));
}

/// A measurement is allowed where it equals one of the first
/// `mr_enclaves_len` entries of the table, and nowhere else: an equal entry
/// at or behind that length does not count.
pub proof fn lemma_allowed_in_prefix(v: AttestationQueue, measurement: Seq<u8>)
    requires
        v.well_formed(),
    ensures
        v.allowed_enclaves().contains(measurement) <==> exists|i: int|
            0 <= i < v.mr_enclaves_len && i < 32 && #[trigger] v.mr_enclaves[i] == measurement,
{
    let allowed = v.allowed_enclaves();
    if allowed.contains(measurement) {
        let i = choose|i: int| 0 <= i < allowed.len() && allowed[i] == measurement;
        assert(v.mr_enclaves[i] == measurement);
    }
    if exists|i: int|
        0 <= i < v.mr_enclaves_len && i < 32 && #[trigger] v.mr_enclaves[i] == measurement {
        let i = choose|i: int|
            0 <= i < v.mr_enclaves_len && i < 32 && #[trigger] v.mr_enclaves[i] == measurement;
        assert(allowed[i] == measurement);
    }
}

/// The view of every record is well formed.
pub proof fn lemma_view_well_formed(queue: AttestationQueueAccountData)
    ensures
        queue@.well_formed(),
{
}

impl AttestationQueueAccountData {
    /// The tag that marks an account as an attestation queue.
    pub fn discriminator() -> (d: [u8; 8])
        ensures
            d@ == tag(),
    {
        let d: [u8; 8] = [192, 53, 130, 67, 234, 207, 39, 171];
        assert(d@ =~= tag());
        d
    }

    /// How many bytes an attestation queue account takes, tag included.
    pub fn size() -> (n: usize)
        ensures
            n == TAG_LEN + RECORD_LEN,
            n == 6238,
    {
        TAG_LEN + RECORD_LEN
    }

    /// Reads the bytes of an account as an attestation queue.
    ///
    /// Bytes behind the record are not looked at.
    pub fn new_from_bytes(data: &[u8]) -> (res: Result<AttestationQueueAccountData, AccountError>)
        ensures
            res is Ok <==> data@.len() >= TAG_LEN + RECORD_LEN && data@.subrange(0, 8) == tag(),
            data@.len() < 8 ==> (res matches Err(e) && e == AccountError::AccountTooShort),
            data@.len() >= 8 && data@.subrange(0, 8) != tag() ==> (res matches Err(e) && e
                == AccountError::DiscriminatorMismatch),
            match res {
                Ok(queue) => (decoded(data@) matches Ok(v) && v == queue@),
                Err(e) => (decoded(data@) matches Err(d) && d == e),
            },
    {
        let expected = Self::discriminator();
        let body = strip_tag(data, &expected)?;
        if body.len() < RECORD_LEN {
            return Err(AccountError::ReadExhausted);
        }
        let queue = AttestationQueueAccountData {
            authority: read_array::<32>(body, 0),
            mr_enclaves: read_rows::<32, 32>(body, 32),
            mr_enclaves_len: read_u32(body, 1056),
            data: read_rows::<32, 128>(body, 1060),
            data_len: read_u32(body, 5156),
            allow_authority_override_after: read_i64(body, 5160),
            require_authority_heartbeat_permission: body[5168] != 0,
            require_usage_permissions: body[5169] != 0,
            max_quote_verification_age: read_i64(body, 5170),
            reward: read_u32(body, 5178),
            last_heartbeat: read_i64(body, 5182),
            node_timeout: read_i64(body, 5190),
            curr_idx: read_u32(body, 5198),
            gc_idx: read_u32(body, 5202),
            _ebuf: read_array::<1024>(body, 5206),
        };
        proof {
            let want = record_of(body@);
            assert(queue@.mr_enclaves =~= want.mr_enclaves);
            assert(queue@.data =~= want.data);
            assert(queue@ =~= want);
        }
        Ok(queue)
    }

    /// Tells whether `mr_enclave` is one of the measurements that the queue
    /// allows. Entries of the table behind the first `mr_enclaves_len` do
    /// not count, whatever they hold.
    pub fn has_mr_enclave(&self, mr_enclave: &[u8]) -> (found: bool)
        ensures
            found == self@.allowed_enclaves().contains(mr_enclave@),
    {
        let mut i: usize = 0;
        while i < MAX_ENCLAVES && (i as u64) < (self.mr_enclaves_len as u64)
            invariant
                i <= MAX_ENCLAVES,
                i <= self@.allowed_enclaves().len(),
                forall|k: int| 0 <= k < i ==> self@.allowed_enclaves()[k] != mr_enclave@,
            decreases MAX_ENCLAVES - i,
        {
            if same_bytes(self.mr_enclaves[i].as_slice(), mr_enclave) {
                assert(self@.allowed_enclaves()[i as int] == mr_enclave@);
                return true;
            }
            i = i + 1;
        }
        assert(i == self@.allowed_enclaves().len());
        false
    }
}

} // verus!
