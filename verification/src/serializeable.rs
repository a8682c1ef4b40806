//! The byte formats of the commands that clients and the server exchange.
use vstd::prelude::*;
use crate::endian::{
    u32_be, u32_of_be, u64_be, u64_of_be, u32_to_be_bytes, u32_from_be_bytes, u64_to_be_bytes,
    u64_from_be_bytes, lemma_u32_be_roundtrip, lemma_u64_be_roundtrip, group_be_lengths,
};
use crate::error::ProtocolError;
use crate::chunking::{
    ChunkedMsg, MsgId, msg_view, chunked_message, chunk_serialized_data, dechunk_serialized_data,
    dechunk_result, packets_in_order, CHUNK_PAYLOAD_SIZE, lemma_msg_view_dom, packet_count,
    lemma_packet_count, lemma_chunked_message_len, lemma_chunk_dechunk_roundtrip,
};
use crate::text::string_from_utf8;
use crate::remote::{end_can_be_added, lemma_chunked_end_can_be_added};
use vstd::utf8::{valid_utf8, decode_utf8, encode_utf8};
use vstd::string::StringSliceAdditionalSpecFns;
use crate::ids::{
    ObjectId, ObjectType, object_type_repr, object_type_of_byte, object_id_from,
    lemma_object_id_from, lemma_object_id_ext,
};

verus! {

broadcast use {lemma_object_id_from, lemma_object_id_ext, group_be_lengths, lemma_msg_view_dom};

/// The command id of a login.
pub const LOGIN_ID: u8 = 76;

/// The command id of an object update.
pub const UPDATE_OBJS_ID: u8 = 85;

/// The command id of an id request or of the id range sent in reply.
pub const ID_FETCH_ID: u8 = 73;

/// An object as sent over the network.
///
/// `mat` holds the bit patterns (as `f64::to_bits` gives them) of the object's 5x4 state
/// matrix: rotation quaternion, position and velocity, scale, anchor and rotational
/// velocity.
#[derive(Clone, Copy, Debug)]
pub struct RemoteObject {
    pub mat: [[u64; 4]; 5],
    pub id: ObjectId,
    pub typ: ObjectType,
}

impl PartialEq for RemoteObject {
    /// Objects are the same when their ids and types are.
    fn eq(&self, other: &Self) -> (res: bool) {
        self.id == other.id && self.typ == other.typ
    }
}

impl vstd::std_specs::cmp::PartialEqSpecImpl for RemoteObject {
    open spec fn obeys_eq_spec() -> bool {
        true
    }

    open spec fn eq_spec(&self, other: &Self) -> bool {
        self.id == other.id && self.typ == other.typ
    }
}

impl Eq for RemoteObject {

}

/// The number of bytes of the state matrix.
pub const MAT_SIZE: usize = 160;

/// The number of bytes that one object takes on the network.
pub const REMOTE_OBJECT_SIZE: usize = MAT_SIZE + 4 + 1;

/// The bytes of one row of the state matrix.
pub open spec fn row_bytes(row: [u64; 4]) -> Seq<u8> {
    u64_be(row[0]) + u64_be(row[1]) + u64_be(row[2]) + u64_be(row[3])
}

/// The bytes of the state matrix, row by row.
pub open spec fn mat_bytes(mat: [[u64; 4]; 5]) -> Seq<u8> {
    row_bytes(mat[0]) + row_bytes(mat[1]) + row_bytes(mat[2]) + row_bytes(mat[3]) + row_bytes(
        mat[4],
    )
}

/// The bytes of one object: its matrix, its id and its type.
pub open spec fn object_bytes(o: RemoteObject) -> Seq<u8> {
    mat_bytes(o.mat) + u32_be(o.id@) + seq![object_type_repr(o.typ)]
}

/// The bytes of a list of objects, one after the other.
pub open spec fn objects_bytes(os: Seq<RemoteObject>) -> Seq<u8>
    decreases os.len(),
{
    if os.len() == 0 {
        seq![]
    } else {
        objects_bytes(os.drop_last()) + object_bytes(os.last())
    }
}

/// The row of four values that starts at `off` in `b`.
#[verifier::opaque]
pub open spec fn row_of(b: Seq<u8>, off: int) -> [u64; 4] {
    [
        u64_of_be(b.subrange(off, off + 8)),
        u64_of_be(b.subrange(off + 8, off + 16)),
        u64_of_be(b.subrange(off + 16, off + 24)),
        u64_of_be(b.subrange(off + 24, off + 32)),
    ]
}

/// The state matrix read from the first 160 bytes of `b`.
#[verifier::opaque]
pub open spec fn mat_of(b: Seq<u8>) -> [[u64; 4]; 5] {
    [row_of(b, 0), row_of(b, 32), row_of(b, 64), row_of(b, 96), row_of(b, 128)]
}

/// The object read from 165 bytes, or the error for a type byte that names no type.
pub open spec fn parse_object(b: Seq<u8>) -> Result<RemoteObject, ProtocolError> {
    match object_type_of_byte(b[164]) {
        Some(t) => Ok(
            RemoteObject {
                mat: mat_of(b),
                id: object_id_from(u32_of_be(b.subrange(160, 164))),
                typ: t,
            },
        ),
        None => Err(ProtocolError::InvalidObjectType(b[164])),
    }
}

/// The first `n` objects read from `b`, or the error of the first that cannot be read.
pub open spec fn parse_objects(b: Seq<u8>, n: nat) -> Result<Seq<RemoteObject>, ProtocolError>
    decreases n,
{
    if n == 0 {
        Ok(seq![])
    } else {
        match parse_objects(b, (n - 1) as nat) {
            Err(e) => Err(e),
            Ok(os) => match parse_object(
                b.subrange((n - 1) * REMOTE_OBJECT_SIZE, n * REMOTE_OBJECT_SIZE),
            ) {
                Err(e) => Err(e),
                Ok(o) => Ok(os.push(o)),
            },
        }
    }
}

/// What reading an update gives: the objects, or the error for a length that is not a
/// whole number of objects or for the first object that cannot be read.
pub open spec fn parse_update(data: Seq<u8>) -> Result<Seq<RemoteObject>, ProtocolError> {
    if data.len() % REMOTE_OBJECT_SIZE as nat != 0 {
        Err(ProtocolError::InvalidUpdateLength)
    } else {
        parse_objects(data, data.len() / REMOTE_OBJECT_SIZE as nat)
    }
}

/// Appends the eight bytes of `v`.
fn push_u64(out: &mut Vec<u8>, v: u64)
    ensures
        final(out)@ == old(out)@ + u64_be(v),
{
    let b = u64_to_be_bytes(v);
    out.push(b[0]);
    out.push(b[1]);
    out.push(b[2]);
    out.push(b[3]);
    out.push(b[4]);
    out.push(b[5]);
    out.push(b[6]);
    out.push(b[7]);
    assert(final(out)@ =~= old(out)@ + u64_be(v));
}

/// Appends the four bytes of `v`.
fn push_u32(out: &mut Vec<u8>, v: u32)
    ensures
        final(out)@ == old(out)@ + u32_be(v),
{
    let b = u32_to_be_bytes(v);
    out.push(b[0]);
    out.push(b[1]);
    out.push(b[2]);
    out.push(b[3]);
    assert(final(out)@ =~= old(out)@ + u32_be(v));
}

/// Reads the eight bytes at `off`.
fn read_u64(data: &[u8], off: usize) -> (res: u64)
    requires
        off + 8 <= data@.len(),
    ensures
        res == u64_of_be(data@.subrange(off as int, off + 8)),
{
    let _len = data.len();
    let b = [
        data[off],
        data[off + 1],
        data[off + 2],
        data[off + 3],
        data[off + 4],
        data[off + 5],
        data[off + 6],
        data[off + 7],
    ];
    assert(b@ =~= data@.subrange(off as int, off + 8));
    u64_from_be_bytes(b)
}

/// Reads the four bytes at `off`.
fn read_u32(data: &[u8], off: usize) -> (res: u32)
    requires
        off + 4 <= data@.len(),
    ensures
        res == u32_of_be(data@.subrange(off as int, off + 4)),
{
    let _len = data.len();
    let b = [data[off], data[off + 1], data[off + 2], data[off + 3]];
    assert(b@ =~= data@.subrange(off as int, off + 4));
    u32_from_be_bytes(b)
}

/// Appends the bytes of one row of the state matrix.
fn push_row(out: &mut Vec<u8>, row: [u64; 4])
    ensures
        final(out)@ == old(out)@ + row_bytes(row),
{
    push_u64(out, row[0]);
    push_u64(out, row[1]);
    push_u64(out, row[2]);
    push_u64(out, row[3]);
    assert(final(out)@ =~= old(out)@ + row_bytes(row));
}

/// Appends the bytes of one object.
fn push_object(out: &mut Vec<u8>, obj: &RemoteObject)
    ensures
        final(out)@ == old(out)@ + object_bytes(*obj),
{
    push_row(out, obj.mat[0]);
    push_row(out, obj.mat[1]);
    push_row(out, obj.mat[2]);
    push_row(out, obj.mat[3]);
    push_row(out, obj.mat[4]);
    push_u32(out, obj.id.as_underlying_type());
    out.push(obj.typ.to_u8());
    assert(final(out)@ =~= old(out)@ + object_bytes(*obj));
}

/// Converts objects to the bytes of an update, with the update's command id.
pub fn serialize_objects(objects: &[RemoteObject]) -> (res: (Vec<u8>, u8))
    ensures
        res.0@ == objects_bytes(objects@),
        res.1 == UPDATE_OBJS_ID,
{
    let mut out: Vec<u8> = Vec::new();
    let mut i: usize = 0;
    while i < objects.len()
        invariant
            i <= objects@.len(),
            out@ == objects_bytes(objects@.subrange(0, i as int)),
        decreases objects@.len() - i,
    {
        push_object(&mut out, &objects[i]);
        assert(objects@.subrange(0, i + 1).drop_last() =~= objects@.subrange(0, i as int));
        i = i + 1;
    }
    assert(objects@.subrange(0, objects@.len() as int) =~= objects@);
    (out, UPDATE_OBJS_ID)
}

/// Reads the row of four values at `off`.
fn read_row(data: &[u8], off: usize) -> (res: [u64; 4])
    requires
        off + 32 <= data@.len(),
    ensures
        res == row_of(data@, off as int),
{
    let _len = data.len();
    let res = [
        read_u64(data, off),
        read_u64(data, off + 8),
        read_u64(data, off + 16),
        read_u64(data, off + 24),
    ];
    proof {
        reveal(row_of);
    }
    assert(res =~= row_of(data@, off as int));
    res
}

/// A row read inside a window of the data is the row read at the shifted place.
proof fn lemma_row_of_window(data: Seq<u8>, off: int, k: int)
    requires
        0 <= off,
        0 <= k,
        k + 32 <= REMOTE_OBJECT_SIZE,
        off + REMOTE_OBJECT_SIZE <= data.len(),
    ensures
        row_of(data, off + k) == row_of(data.subrange(off, off + REMOTE_OBJECT_SIZE), k),
{
    let b = data.subrange(off, off + REMOTE_OBJECT_SIZE);
    reveal(row_of);
    assert(data.subrange(off + k, off + k + 8) =~= b.subrange(k, k + 8));
    assert(data.subrange(off + k + 8, off + k + 16) =~= b.subrange(k + 8, k + 16));
    assert(data.subrange(off + k + 16, off + k + 24) =~= b.subrange(k + 16, k + 24));
    assert(data.subrange(off + k + 24, off + k + 32) =~= b.subrange(k + 24, k + 32));
}

/// Reads the state matrix of the object that starts at `off`.
fn read_mat(data: &[u8], off: usize) -> (res: [[u64; 4]; 5])
    requires
        off + REMOTE_OBJECT_SIZE <= data@.len(),
    ensures
        res == mat_of(data@.subrange(off as int, off + REMOTE_OBJECT_SIZE)),
{
    let _len = data.len();
    let r0 = read_row(data, off);
    let r1 = read_row(data, off + 32);
    let r2 = read_row(data, off + 64);
    let r3 = read_row(data, off + 96);
    let r4 = read_row(data, off + 128);
    proof {
        lemma_row_of_window(data@, off as int, 0);
        lemma_row_of_window(data@, off as int, 32);
        lemma_row_of_window(data@, off as int, 64);
        lemma_row_of_window(data@, off as int, 96);
        lemma_row_of_window(data@, off as int, 128);
    }
    let res = [r0, r1, r2, r3, r4];
    proof {
        reveal(mat_of);
    }
    assert(res =~= mat_of(data@.subrange(off as int, off + REMOTE_OBJECT_SIZE)));
    res
}

/// Reads the object that starts at `off`.
fn read_object(data: &[u8], off: usize) -> (res: Result<RemoteObject, ProtocolError>)
    requires
        off + REMOTE_OBJECT_SIZE <= data@.len(),
    ensures
        res == parse_object(data@.subrange(off as int, off + REMOTE_OBJECT_SIZE)),
{
    let _len = data.len();
    let ghost b = data@.subrange(off as int, off + REMOTE_OBJECT_SIZE);
    let mat = read_mat(data, off);
    let id = read_u32(data, off + MAT_SIZE);
    assert(data@.subrange(off + MAT_SIZE, off + MAT_SIZE + 4) =~= b.subrange(160, 164));
    let oid = ObjectId::new(id);
    assert(oid == object_id_from(u32_of_be(b.subrange(160, 164)))) by {
        lemma_object_id_ext(oid, object_id_from(u32_of_be(b.subrange(160, 164))));
    }
    assert(b[164] == data@[off + MAT_SIZE + 4]);
    match ObjectType::try_from_u8(data[off + MAT_SIZE + 4]) {
        Ok(typ) => Ok(RemoteObject { mat, id: oid, typ }),
        Err(e) => Err(e),
    }
}

/// Reads the objects of an update.
///
/// Fails if the length is not a whole number of objects or an object's type byte names no
/// type.
pub fn deserialize_update(data: &[u8]) -> (res: Result<Vec<RemoteObject>, ProtocolError>)
    ensures
        match parse_update(data@) {
            Ok(os) => res matches Ok(v) && v@ == os,
            Err(e) => res == Err::<Vec<RemoteObject>, ProtocolError>(e),
        },
{
    if data.len() % REMOTE_OBJECT_SIZE != 0 {
        return Err(ProtocolError::InvalidUpdateLength);
    }
    let len = data.len();
    let n = len / REMOTE_OBJECT_SIZE;
    let mut objs: Vec<RemoteObject> = Vec::new();
    let mut i: usize = 0;
    while i < n
        invariant
            i <= n,
            len == data@.len(),
            n == data@.len() / REMOTE_OBJECT_SIZE as nat,
            data@.len() % REMOTE_OBJECT_SIZE as nat == 0,
            parse_objects(data@, i as nat) == Ok::<Seq<RemoteObject>, ProtocolError>(objs@),
        decreases n - i,
    {
        assert((i + 1) * 165 <= data@.len()) by (nonlinear_arith)
            requires i < n, n == data@.len() / 165, data@.len() % 165 == 0;
        assert(i * REMOTE_OBJECT_SIZE + REMOTE_OBJECT_SIZE <= data@.len()) by (nonlinear_arith)
            requires (i + 1) * 165 <= data@.len(), REMOTE_OBJECT_SIZE == 165;
        match read_object(data, i * REMOTE_OBJECT_SIZE) {
            Ok(o) => {
                objs.push(o);
            },
            Err(e) => {
                proof {
                    lemma_parse_objects_err(data@, (i + 1) as nat, n as nat);
                }
                return Err(e);
            },
        }
        i = i + 1;
    }
    Ok(objs)
}

/// Once reading the first `k` objects fails, reading more fails the same way.
proof fn lemma_parse_objects_err(b: Seq<u8>, k: nat, n: nat)
    requires
        k <= n,
        parse_objects(b, k) is Err,
    ensures
        parse_objects(b, n) == parse_objects(b, k),
    decreases n,
{
    if k < n {
        lemma_parse_objects_err(b, k, (n - 1) as nat);
    }
}

/// The byte of every type reads back as that type.
pub proof fn lemma_object_type_byte_roundtrip(t: ObjectType)
    ensures
        object_type_of_byte(object_type_repr(t)) == Some(t),
{
}

/// The row written at `k` reads back at `k`.
proof fn lemma_row_roundtrip(s: Seq<u8>, k: int, row: [u64; 4])
    requires
        0 <= k,
        k + 32 <= s.len(),
        s.subrange(k, k + 32) == row_bytes(row),
    ensures
        row_of(s, k) == row,
{
    reveal(row_of);
    let rb = row_bytes(row);
    assert(rb.subrange(0, 8) =~= u64_be(row[0]));
    assert(rb.subrange(8, 16) =~= u64_be(row[1]));
    assert(rb.subrange(16, 24) =~= u64_be(row[2]));
    assert(rb.subrange(24, 32) =~= u64_be(row[3]));
    assert(s.subrange(k, k + 8) =~= rb.subrange(0, 8));
    assert(s.subrange(k + 8, k + 16) =~= rb.subrange(8, 16));
    assert(s.subrange(k + 16, k + 24) =~= rb.subrange(16, 24));
    assert(s.subrange(k + 24, k + 32) =~= rb.subrange(24, 32));
    lemma_u64_be_roundtrip(row[0]);
    lemma_u64_be_roundtrip(row[1]);
    lemma_u64_be_roundtrip(row[2]);
    lemma_u64_be_roundtrip(row[3]);
    assert(row_of(s, k) =~= row);
}

/// An object's bytes read back as the object.
pub proof fn lemma_object_roundtrip(o: RemoteObject)
    ensures
        object_bytes(o).len() == REMOTE_OBJECT_SIZE,
        parse_object(object_bytes(o)) == Ok::<RemoteObject, ProtocolError>(o),
{
    let b = object_bytes(o);
    assert(b.len() == REMOTE_OBJECT_SIZE);
    assert(b.subrange(0, 32) =~= row_bytes(o.mat[0]));
    assert(b.subrange(32, 64) =~= row_bytes(o.mat[1]));
    assert(b.subrange(64, 96) =~= row_bytes(o.mat[2]));
    assert(b.subrange(96, 128) =~= row_bytes(o.mat[3]));
    assert(b.subrange(128, 160) =~= row_bytes(o.mat[4]));
    lemma_row_roundtrip(b, 0, o.mat[0]);
    lemma_row_roundtrip(b, 32, o.mat[1]);
    lemma_row_roundtrip(b, 64, o.mat[2]);
    lemma_row_roundtrip(b, 96, o.mat[3]);
    lemma_row_roundtrip(b, 128, o.mat[4]);
    reveal(mat_of);
    assert(mat_of(b) =~= o.mat);
    assert(b.subrange(160, 164) =~= u32_be(o.id@));
    lemma_u32_be_roundtrip(o.id@);
    lemma_object_id_ext(o.id, object_id_from(u32_of_be(b.subrange(160, 164))));
    lemma_object_type_byte_roundtrip(o.typ);
}

/// Each object takes `REMOTE_OBJECT_SIZE` bytes.
proof fn lemma_objects_bytes_len(os: Seq<RemoteObject>)
    ensures
        objects_bytes(os).len() == os.len() * REMOTE_OBJECT_SIZE,
{
    if os.len() == 0 {
        assert(objects_bytes(os).len() == 0);
    } else {
        lemma_objects_bytes_layout(os, 0);
    }
}

/// Whether a list of objects fits in one message, as `update_fits` says.
fn objects_fit(os: &[RemoteObject]) -> (res: bool)
    ensures
        res == update_fits(os@),
{
    proof {
        lemma_objects_bytes_len(os@);
        assert(REMOTE_OBJECT_SIZE == 165);
        assert(CHUNK_PAYLOAD_SIZE == 1016);
    }
    // 1570 objects take 259050 bytes, 1571 take 259215: more than 255 * 1016 = 259080.
    os.len() <= 1570
}

/// The bytes of a list of objects hold each object's bytes in its place.
proof fn lemma_objects_bytes_layout(os: Seq<RemoteObject>, i: int)
    requires
        0 <= i < os.len(),
    ensures
        objects_bytes(os).len() == os.len() * REMOTE_OBJECT_SIZE,
        objects_bytes(os).subrange(i * REMOTE_OBJECT_SIZE, (i + 1) * REMOTE_OBJECT_SIZE)
            == object_bytes(os[i]),
    decreases os.len(),
{
    let prev = os.drop_last();
    if prev.len() > 0 {
        let j = if i < prev.len() { i } else { 0 };
        lemma_objects_bytes_layout(prev, j);
    } else {
        assert(objects_bytes(prev).len() == 0);
    }
    assert(objects_bytes(os) == objects_bytes(prev) + object_bytes(os.last()));
    assert(objects_bytes(os).len() == os.len() * REMOTE_OBJECT_SIZE) by (nonlinear_arith)
        requires
            objects_bytes(os).len() == objects_bytes(prev).len() + 165,
            objects_bytes(prev).len() == prev.len() * 165,
            prev.len() == os.len() - 1,
            REMOTE_OBJECT_SIZE == 165;
    if i < prev.len() {
        assert((i + 1) * REMOTE_OBJECT_SIZE <= prev.len() * REMOTE_OBJECT_SIZE) by (nonlinear_arith)
            requires i + 1 <= prev.len(), REMOTE_OBJECT_SIZE == 165;
        assert(objects_bytes(os).subrange(i * REMOTE_OBJECT_SIZE, (i + 1) * REMOTE_OBJECT_SIZE)
            =~= objects_bytes(prev).subrange(i * REMOTE_OBJECT_SIZE, (i + 1) * REMOTE_OBJECT_SIZE));
        assert(prev[i] == os[i]);
    } else {
        assert(i * REMOTE_OBJECT_SIZE == prev.len() * REMOTE_OBJECT_SIZE);
        assert(objects_bytes(os).subrange(i * REMOTE_OBJECT_SIZE, (i + 1) * REMOTE_OBJECT_SIZE)
            =~= object_bytes(os.last()));
    }
}

/// Reading the first `k` objects of a list's bytes gives the first `k` objects.
proof fn lemma_parse_objects_prefix(os: Seq<RemoteObject>, k: nat)
    requires
        k <= os.len(),
    ensures
        parse_objects(objects_bytes(os), k) == Ok::<Seq<RemoteObject>, ProtocolError>(
            os.subrange(0, k as int),
        ),
    decreases k,
{
    if k == 0 {
        assert(os.subrange(0, 0) =~= Seq::<RemoteObject>::empty());
    } else {
        lemma_parse_objects_prefix(os, (k - 1) as nat);
        lemma_objects_bytes_layout(os, k - 1);
        lemma_object_roundtrip(os[k - 1]);
        assert(os.subrange(0, k - 1).push(os[k - 1]) =~= os.subrange(0, k as int));
    }
}

/// Reading the bytes of a list of objects gives back the list.
pub proof fn lemma_update_roundtrip(os: Seq<RemoteObject>)
    ensures
        parse_update(objects_bytes(os)) == Ok::<Seq<RemoteObject>, ProtocolError>(os),
{
    if os.len() > 0 {
        lemma_objects_bytes_layout(os, 0);
    } else {
        assert(objects_bytes(os).len() == 0);
    }
    let n = os.len();
    let b = objects_bytes(os);
    assert(b.len() % REMOTE_OBJECT_SIZE as nat == 0 && b.len() / REMOTE_OBJECT_SIZE as nat == n) by (nonlinear_arith)
        requires b.len() == n * 165, REMOTE_OBJECT_SIZE == 165;
    lemma_parse_objects_prefix(os, n);
    assert(os.subrange(0, n as int) =~= os);
}

/// The lighting of a map: skybox and HDR image paths and the direction of the sun light.
///
/// `dir_light` holds the bit patterns (as `f32::to_bits` gives them) of the direction.
#[derive(Debug, PartialEq, Eq)]
pub struct GlobalLightingInfo {
    pub skybox: String,
    pub hdr: String,
    pub dir_light: [u32; 3],
}

impl Clone for GlobalLightingInfo {
    fn clone(&self) -> (res: Self)
        ensures
            res@ == self@,
    {
        GlobalLightingInfo {
            skybox: self.skybox.clone(),
            hdr: self.hdr.clone(),
            dir_light: self.dir_light,
        }
    }
}

/// What a client learns when it logs in.
///
/// `spawn_pos` holds the bit patterns (as `f64::to_bits` gives them) of the position.
#[derive(Debug, PartialEq, Eq)]
pub struct LoginInfo {
    pub pid: ObjectId,
    pub lighting: GlobalLightingInfo,
    pub spawn_pos: [u64; 3],
    pub starting_ids: (ObjectId, ObjectId),
}

impl Clone for LoginInfo {
    fn clone(&self) -> (res: Self)
        ensures
            res@ == self@,
    {
        LoginInfo {
            pid: self.pid,
            lighting: self.lighting.clone(),
            spawn_pos: self.spawn_pos,
            starting_ids: (self.starting_ids.0, self.starting_ids.1),
        }
    }
}

/// The lighting of a map, with its paths as characters.
pub ghost struct LightingView {
    pub skybox: Seq<char>,
    pub hdr: Seq<char>,
    pub dir_light: [u32; 3],
}

/// A login reply, with its paths as characters.
pub ghost struct LoginView {
    pub pid: ObjectId,
    pub lighting: LightingView,
    pub spawn_pos: [u64; 3],
    pub starting_ids: (ObjectId, ObjectId),
}

impl View for GlobalLightingInfo {
    type V = LightingView;

    open spec fn view(&self) -> LightingView {
        LightingView { skybox: self.skybox@, hdr: self.hdr@, dir_light: self.dir_light }
    }
}

impl View for LoginInfo {
    type V = LoginView;

    open spec fn view(&self) -> LoginView {
        LoginView {
            pid: self.pid,
            lighting: self.lighting@,
            spawn_pos: self.spawn_pos,
            starting_ids: self.starting_ids,
        }
    }
}

/// The fewest bytes a login reply can take: the id, the light direction, two string
/// lengths counted twice, the spawn position and the id range.
pub const LOGIN_MIN_SIZE: usize = 4 + 12 + 2 * 2 + 24 + 8;

/// The bytes of a login reply: id, spawn position, light direction, id range, then each
/// path as a length byte followed by its UTF-8 bytes.
pub open spec fn login_bytes(l: LoginView) -> Seq<u8> {
    let hb = encode_utf8(l.lighting.hdr);
    let sb = encode_utf8(l.lighting.skybox);
    u32_be(l.pid@) + u64_be(l.spawn_pos[0]) + u64_be(l.spawn_pos[1]) + u64_be(l.spawn_pos[2])
        + u32_be(l.lighting.dir_light[0]) + u32_be(l.lighting.dir_light[1]) + u32_be(
        l.lighting.dir_light[2],
    ) + u32_be(l.starting_ids.0@) + u32_be(l.starting_ids.1@) + seq![hb.len() as u8] + hb
        + seq![sb.len() as u8] + sb
}

/// The length of the HDR path of a login reply.
pub open spec fn login_hdr_len(data: Seq<u8>) -> int {
    data[48] as int
}

/// The bytes of the HDR path of a login reply.
pub open spec fn login_hdr_bytes(data: Seq<u8>) -> Seq<u8> {
    data.subrange(49, 49 + login_hdr_len(data))
}

/// The length of the skybox path of a login reply.
pub open spec fn login_skybox_len(data: Seq<u8>) -> int {
    data[49 + login_hdr_len(data)] as int
}

/// The bytes of the skybox path of a login reply.
pub open spec fn login_skybox_bytes(data: Seq<u8>) -> Seq<u8> {
    data.subrange(50 + login_hdr_len(data), 50 + login_hdr_len(data) + login_skybox_len(data))
}

/// A login reply can be read without running past its end: its lengths fit the data as
/// far as reading gets before it fails.
pub open spec fn login_readable(data: Seq<u8>) -> bool {
    data.len() < LOGIN_MIN_SIZE || {
        &&& 49 + login_hdr_len(data) <= data.len()
        &&& valid_utf8(login_hdr_bytes(data)) ==> {
            &&& 49 + login_hdr_len(data) < data.len()
            &&& 50 + login_hdr_len(data) + login_skybox_len(data) <= data.len()
        }
    }
}

/// What reading a login reply gives.
pub open spec fn parse_login(data: Seq<u8>) -> Result<LoginView, ProtocolError> {
    if data.len() < LOGIN_MIN_SIZE {
        Err(ProtocolError::LoginTooShort)
    } else if !valid_utf8(login_hdr_bytes(data)) {
        Err(ProtocolError::InvalidUtf8)
    } else if !valid_utf8(login_skybox_bytes(data)) {
        Err(ProtocolError::InvalidUtf8)
    } else {
        Ok(
            LoginView {
                pid: object_id_from(u32_of_be(data.subrange(0, 4))),
                spawn_pos: [
                    u64_of_be(data.subrange(4, 12)),
                    u64_of_be(data.subrange(12, 20)),
                    u64_of_be(data.subrange(20, 28)),
                ],
                lighting: LightingView {
                    dir_light: [
                        u32_of_be(data.subrange(28, 32)),
                        u32_of_be(data.subrange(32, 36)),
                        u32_of_be(data.subrange(36, 40)),
                    ],
                    hdr: decode_utf8(login_hdr_bytes(data)),
                    skybox: decode_utf8(login_skybox_bytes(data)),
                },
                starting_ids: (
                    object_id_from(u32_of_be(data.subrange(40, 44))),
                    object_id_from(u32_of_be(data.subrange(44, 48))),
                ),
            },
        )
    }
}

/// Appends the bytes of `s` after the byte of their length.
fn push_short_str(out: &mut Vec<u8>, s: &str)
    requires
        s.spec_bytes().len() <= 255,
    ensures
        final(out)@ == old(out)@ + seq![s.spec_bytes().len() as u8] + s.spec_bytes(),
{
    let bytes = s.as_bytes();
    out.push(bytes.len() as u8);
    let ghost start = out@;
    let mut i: usize = 0;
    while i < bytes.len()
        invariant
            i <= bytes@.len(),
            out@ =~= start + bytes@.subrange(0, i as int),
        decreases bytes@.len() - i,
    {
        out.push(bytes[i]);
        i = i + 1;
    }
    assert(final(out)@ =~= old(out)@ + seq![s.spec_bytes().len() as u8] + s.spec_bytes());
}

/// Converts a login reply to its bytes, with the login's command id.
///
/// Each path must be at most 255 bytes long.
pub fn serialize_login(login: &LoginInfo) -> (res: (Vec<u8>, u8))
    requires
        encode_utf8(login.lighting.hdr@).len() <= 255,
        encode_utf8(login.lighting.skybox@).len() <= 255,
    ensures
        res.0@ == login_bytes(login@),
        res.1 == LOGIN_ID,
{
    let mut out: Vec<u8> = Vec::new();
    push_u32(&mut out, login.pid.as_underlying_type());
    push_u64(&mut out, login.spawn_pos[0]);
    push_u64(&mut out, login.spawn_pos[1]);
    push_u64(&mut out, login.spawn_pos[2]);
    push_u32(&mut out, login.lighting.dir_light[0]);
    push_u32(&mut out, login.lighting.dir_light[1]);
    push_u32(&mut out, login.lighting.dir_light[2]);
    push_u32(&mut out, login.starting_ids.0.as_underlying_type());
    push_u32(&mut out, login.starting_ids.1.as_underlying_type());
    push_short_str(&mut out, login.lighting.hdr.as_str());
    push_short_str(&mut out, login.lighting.skybox.as_str());
    assert(out@ =~= login_bytes(login@));
    (out, LOGIN_ID)
}

/// Copies `data[start..end]` into a new vector.
pub fn copy_range(data: &[u8], start: usize, end: usize) -> (res: Vec<u8>)
    requires
        start <= end <= data@.len(),
    ensures
        res@ == data@.subrange(start as int, end as int),
{
    let mut v: Vec<u8> = Vec::new();
    let mut i = start;
    while i < end
        invariant
            start <= i <= end <= data@.len(),
            v@ =~= data@.subrange(start as int, i as int),
        decreases end - i,
    {
        v.push(data[i]);
        i = i + 1;
    }
    v
}

/// Whether a login reply can be read without running past its end.
pub fn login_is_readable(data: &[u8]) -> (res: bool)
    ensures
        res == login_readable(data@),
{
    let len = data.len();
    if len < LOGIN_MIN_SIZE {
        return true;
    }
    let h = data[48] as usize;
    if 49 + h > len {
        return false;
    }
    let hdr_bytes = copy_range(data, 49, 49 + h);
    match string_from_utf8(hdr_bytes.as_slice()) {
        None => true,
        Some(_) => 49 + h < len && 50 + h + (data[49 + h] as usize) <= len,
    }
}

/// Reads a login reply.
///
/// Fails if the data is shorter than the fixed fields or a path is not UTF-8. The path
/// lengths must fit the data (see `login_readable`).
pub fn deserialize_login(data: &[u8]) -> (res: Result<LoginInfo, ProtocolError>)
    requires
        login_readable(data@),
    ensures
        match parse_login(data@) {
            Ok(l) => res matches Ok(r) && r@ == l,
            Err(e) => res == Err::<LoginInfo, ProtocolError>(e),
        },
{
    let len = data.len();
    if len < LOGIN_MIN_SIZE {
        return Err(ProtocolError::LoginTooShort);
    }
    let pid = ObjectId::new(read_u32(data, 0));
    let spawn_pos = [read_u64(data, 4), read_u64(data, 12), read_u64(data, 20)];
    let dir_light = [read_u32(data, 28), read_u32(data, 32), read_u32(data, 36)];
    let starting_id = ObjectId::new(read_u32(data, 40));
    let ending_id = ObjectId::new(read_u32(data, 44));
    let hdr_len = data[48] as usize;
    let hdr_bytes = copy_range(data, 49, 49 + hdr_len);
    let hdr = match string_from_utf8(hdr_bytes.as_slice()) {
        Some(s) => s,
        None => {
            return Err(ProtocolError::InvalidUtf8);
        },
    };
    let skybox_len = data[49 + hdr_len] as usize;
    let sky_bytes = copy_range(data, 50 + hdr_len, 50 + hdr_len + skybox_len);
    let skybox = match string_from_utf8(sky_bytes.as_slice()) {
        Some(s) => s,
        None => {
            return Err(ProtocolError::InvalidUtf8);
        },
    };
    let res = LoginInfo {
        pid,
        spawn_pos,
        lighting: GlobalLightingInfo { dir_light, hdr, skybox },
        starting_ids: (starting_id, ending_id),
    };
    proof {
        let l = parse_login(data@).unwrap();
        lemma_object_id_ext(pid, l.pid);
        lemma_object_id_ext(starting_id, l.starting_ids.0);
        lemma_object_id_ext(ending_id, l.starting_ids.1);
        assert(spawn_pos =~= l.spawn_pos);
        assert(dir_light =~= l.lighting.dir_light);
    }
    Ok(res)
}

/// Converts an id range to its bytes, with the id fetch command id.
pub fn serialize_id_range(ids: (ObjectId, ObjectId)) -> (res: (Vec<u8>, u8))
    ensures
        res.0@ == u32_be(ids.0@) + u32_be(ids.1@),
        res.1 == ID_FETCH_ID,
{
    let mut out: Vec<u8> = Vec::new();
    push_u32(&mut out, ids.0.as_underlying_type());
    push_u32(&mut out, ids.1.as_underlying_type());
    assert(out@ =~= u32_be(ids.0@) + u32_be(ids.1@));
    (out, ID_FETCH_ID)
}

/// What reading an id range gives.
pub open spec fn parse_id_range(data: Seq<u8>) -> Result<(ObjectId, ObjectId), ProtocolError> {
    if data.len() != 8 {
        Err(ProtocolError::InvalidIdRangeSize)
    } else {
        Ok(
            (
                object_id_from(u32_of_be(data.subrange(0, 4))),
                object_id_from(u32_of_be(data.subrange(4, 8))),
            ),
        )
    }
}

/// Reads an id range; fails unless the data is 8 bytes long.
pub fn deserialize_id_range(data: &[u8]) -> (res: Result<(ObjectId, ObjectId), ProtocolError>)
    ensures
        res == parse_id_range(data@),
{
    if data.len() != 8 {
        return Err(ProtocolError::InvalidIdRangeSize);
    }
    let start = ObjectId::new(read_u32(data, 0));
    let end = ObjectId::new(read_u32(data, 4));
    proof {
        lemma_object_id_ext(start, object_id_from(u32_of_be(data@.subrange(0, 4))));
        lemma_object_id_ext(end, object_id_from(u32_of_be(data@.subrange(4, 8))));
    }
    Ok((start, end))
}

/// Converts a request for `id_amount` ids to its bytes, with the id fetch command id.
pub fn serialize_id_request(id_amount: u32) -> (res: (Vec<u8>, u8))
    ensures
        res.0@ == u32_be(id_amount),
        res.1 == ID_FETCH_ID,
{
    let mut out: Vec<u8> = Vec::new();
    push_u32(&mut out, id_amount);
    assert(out@ =~= u32_be(id_amount));
    (out, ID_FETCH_ID)
}

/// What reading an id request gives.
pub open spec fn parse_id_request(data: Seq<u8>) -> Result<u32, ProtocolError> {
    if data.len() != 4 {
        Err(ProtocolError::InvalidIdRequestSize)
    } else {
        Ok(u32_of_be(data))
    }
}

/// Reads an id request; fails unless the data is 4 bytes long.
pub fn deserialize_id_request(data: &[u8]) -> (res: Result<u32, ProtocolError>)
    ensures
        res == parse_id_request(data@),
{
    if data.len() != 4 {
        return Err(ProtocolError::InvalidIdRequestSize);
    }
    let v = read_u32(data, 0);
    assert(data@.subrange(0, 4) =~= data@);
    Ok(v)
}

/// A type that can be converted to a network message.
pub trait Serializeable: View + Sized {
    /// What `serialize` gives for a value of view `v` under message id `msg_id`.
    spec fn spec_serialize(v: Self::V, msg_id: MsgId) -> Result<Map<u8, Seq<u8>>, ProtocolError>;

    /// The values that `serialize` can convert without running out of packet numbers.
    spec fn serialize_requires(v: Self::V) -> bool;

    /// What `deserialize` gives for a message.
    spec fn spec_deserialize(chunks: Map<u8, Seq<u8>>) -> Result<(Self::V, MsgId), ProtocolError>;

    /// The messages that `deserialize` can read without indexing past the data.
    spec fn deserialize_requires(chunks: Map<u8, Seq<u8>>) -> bool;

    /// A message that `serialize` makes of a value it can convert can take the `END`
    /// token.
    proof fn lemma_serialized_takes_end(v: Self::V, msg_id: MsgId)
        requires
            Self::serialize_requires(v),
        ensures
            Self::spec_serialize(v, msg_id) matches Ok(m) ==> end_can_be_added(m),
    ;

    /// Whether `serialize` can convert this value.
    fn serialize_is_safe(&self) -> (res: bool)
        ensures
            res == Self::serialize_requires(self@),
    ;

    /// Converts the object into a chunked message without the `END` token.
    ///
    /// `msg_id` must be unique for each message of each sender.
    fn serialize(&self, msg_id: MsgId) -> (res: Result<ChunkedMsg, ProtocolError>)
        requires
            Self::serialize_requires(self@),
        ensures
            match Self::spec_serialize(self@, msg_id) {
                Ok(m) => res matches Ok(r) && msg_view(r) == m,
                Err(e) => res == Err::<ChunkedMsg, ProtocolError>(e),
            },
    ;

    /// Whether `deserialize` can read `chunks` without running past its data.
    fn deserialize_is_safe(chunks: &ChunkedMsg) -> (res: bool)
        ensures
            res == Self::deserialize_requires(msg_view(*chunks)),
    ;

    /// Converts a chunked message without the `END` token into the object and its message
    /// id.
    fn deserialize(chunks: ChunkedMsg) -> (res: Result<(Self, MsgId), ProtocolError>)
        requires
            Self::deserialize_requires(msg_view(chunks)),
        ensures
            match Self::spec_deserialize(msg_view(chunks)) {
                Ok((v, id)) => res matches Ok((r, rid)) && r@ == v && rid == id,
                Err(e) => res is Err && res == Err::<(Self, MsgId), ProtocolError>(e),
            },
    ;
}

/// A command sent from a client to the server.
#[derive(Clone, Debug, PartialEq, Eq)]
pub enum ClientCommandType<'a> {
    Login(String),
    Update(Vec<RemoteObject>),
    UpdateReadOnly(&'a [RemoteObject]),
    GetIds(u32),
}

/// A client command, with a borrowed update read as an update.
pub ghost enum ClientCommand {
    Login(Seq<char>),
    Update(Seq<RemoteObject>),
    GetIds(u32),
}

impl<'a> View for ClientCommandType<'a> {
    type V = ClientCommand;

    open spec fn view(&self) -> ClientCommand {
        match self {
            ClientCommandType::Login(name) => ClientCommand::Login(name@),
            ClientCommandType::Update(objs) => ClientCommand::Update(objs@),
            ClientCommandType::UpdateReadOnly(objs) => ClientCommand::Update(objs@),
            ClientCommandType::GetIds(n) => ClientCommand::GetIds(*n),
        }
    }
}

/// A command sent from the server to a client.
#[derive(Debug, PartialEq, Eq)]
pub enum ServerCommandType {
    ReturnLogin(LoginInfo),
    Update(Vec<RemoteObject>),
    ReturnIds((ObjectId, ObjectId)),
}

impl Clone for ServerCommandType {
    fn clone(&self) -> (res: Self) {
        match self {
            ServerCommandType::ReturnLogin(l) => ServerCommandType::ReturnLogin(l.clone()),
            ServerCommandType::Update(objs) => ServerCommandType::Update(objs.clone()),
            ServerCommandType::ReturnIds(ids) => ServerCommandType::ReturnIds((ids.0, ids.1)),
        }
    }
}

/// A server command, with the login reply as its view.
pub ghost enum ServerCommand {
    ReturnLogin(LoginView),
    Update(Seq<RemoteObject>),
    ReturnIds((ObjectId, ObjectId)),
}

impl View for ServerCommandType {
    type V = ServerCommand;

    open spec fn view(&self) -> ServerCommand {
        match self {
            ServerCommandType::ReturnLogin(l) => ServerCommand::ReturnLogin(l@),
            ServerCommandType::Update(objs) => ServerCommand::Update(objs@),
            ServerCommandType::ReturnIds(ids) => ServerCommand::ReturnIds(*ids),
        }
    }
}

/// The bytes of a login request: the name's length (modulo 256), then its UTF-8 bytes.
pub open spec fn login_request_bytes(name: Seq<char>) -> Seq<u8> {
    let nb = encode_utf8(name);
    seq![(nb.len() % 256) as u8] + nb
}

/// The objects of an update fit into the 255 packets of a message.
pub open spec fn update_fits(os: Seq<RemoteObject>) -> bool {
    objects_bytes(os).len() <= 255 * CHUNK_PAYLOAD_SIZE
}

/// What reading the data of a login request gives.
pub open spec fn parse_login_request(data: Seq<u8>) -> Result<Seq<char>, ProtocolError> {
    if data.len() == 0 {
        Err(ProtocolError::LoginTooShort)
    } else if data.len() < 1 + data[0] {
        Err(ProtocolError::LoginTooShort)
    } else if !valid_utf8(data.subrange(1, data.len() as int)) {
        Err(ProtocolError::InvalidUtf8)
    } else {
        Ok(decode_utf8(data.subrange(1, data.len() as int)))
    }
}

/// What a client command's data reads as, given its command id.
pub open spec fn parse_client_command(data: Seq<u8>, cmd_id: u8) -> Result<ClientCommand, ProtocolError> {
    if cmd_id == LOGIN_ID {
        match parse_login_request(data) {
            Ok(name) => Ok(ClientCommand::Login(name)),
            Err(e) => Err(e),
        }
    } else if cmd_id == UPDATE_OBJS_ID {
        match parse_update(data) {
            Ok(os) => Ok(ClientCommand::Update(os)),
            Err(e) => Err(e),
        }
    } else if cmd_id == ID_FETCH_ID {
        match parse_id_request(data) {
            Ok(n) => Ok(ClientCommand::GetIds(n)),
            Err(e) => Err(e),
        }
    } else {
        Err(ProtocolError::UnknownCommand(cmd_id))
    }
}

/// What a server command's data reads as, given its command id.
pub open spec fn parse_server_command(data: Seq<u8>, cmd_id: u8) -> Result<ServerCommand, ProtocolError> {
    if cmd_id == LOGIN_ID {
        match parse_login(data) {
            Ok(l) => Ok(ServerCommand::ReturnLogin(l)),
            Err(e) => Err(e),
        }
    } else if cmd_id == UPDATE_OBJS_ID {
        match parse_update(data) {
            Ok(os) => Ok(ServerCommand::Update(os)),
            Err(e) => Err(e),
        }
    } else if cmd_id == ID_FETCH_ID {
        match parse_id_range(data) {
            Ok(ids) => Ok(ServerCommand::ReturnIds(ids)),
            Err(e) => Err(e),
        }
    } else {
        Err(ProtocolError::UnknownCommand(cmd_id))
    }
}

/// Copies a byte string into a new vector.
fn to_vec(data: &[u8]) -> (res: Vec<u8>)
    ensures
        res@ == data@,
{
    let r = copy_range(data, 0, data.len());
    assert(data@.subrange(0, data@.len() as int) =~= data@);
    r
}

impl<'a> Serializeable for ClientCommandType<'a> {
    open spec fn spec_serialize(v: ClientCommand, msg_id: MsgId) -> Result<Map<u8, Seq<u8>>, ProtocolError> {
        match v {
            ClientCommand::Login(name) => if encode_utf8(name).len() > 256 {
                Err(ProtocolError::LoginNameTooLong)
            } else {
                Ok(chunked_message(LOGIN_ID, login_request_bytes(name), msg_id))
            },
            ClientCommand::Update(os) => Ok(chunked_message(UPDATE_OBJS_ID, objects_bytes(os), msg_id)),
            ClientCommand::GetIds(n) => Ok(chunked_message(ID_FETCH_ID, u32_be(n), msg_id)),
        }
    }

    open spec fn serialize_requires(v: ClientCommand) -> bool {
        match v {
            ClientCommand::Update(os) => update_fits(os),
            _ => true,
        }
    }

    open spec fn spec_deserialize(chunks: Map<u8, Seq<u8>>) -> Result<(ClientCommand, MsgId), ProtocolError> {
        match dechunk_result(packets_in_order(chunks)) {
            Err(e) => Err(e),
            Ok((data, cmd_id, msg_id)) => match parse_client_command(data, cmd_id) {
                Ok(c) => Ok((c, msg_id)),
                Err(e) => Err(e),
            },
        }
    }

    open spec fn deserialize_requires(chunks: Map<u8, Seq<u8>>) -> bool {
        true
    }

    fn serialize(&self, msg_id: MsgId) -> (res: Result<ChunkedMsg, ProtocolError>) {
        let (data, cmd_id) = match self {
            ClientCommandType::Login(name) => {
                let bytes = name.as_str().as_bytes();
                if bytes.len() > 256 {
                    return Err(ProtocolError::LoginNameTooLong);
                }
                let mut data: Vec<u8> = Vec::new();
                data.push((bytes.len() % 256) as u8);
                let mut i: usize = 0;
                while i < bytes.len()
                    invariant
                        i <= bytes@.len(),
                        data@ =~= seq![(bytes@.len() % 256) as u8] + bytes@.subrange(0, i as int),
                    decreases bytes@.len() - i,
                {
                    data.push(bytes[i]);
                    i = i + 1;
                }
                assert(data@ =~= login_request_bytes(name@));
                (data, LOGIN_ID)
            },
            ClientCommandType::Update(objects) => serialize_objects(objects.as_slice()),
            ClientCommandType::UpdateReadOnly(objects) => serialize_objects(objects),
            ClientCommandType::GetIds(amount) => serialize_id_request(*amount),
        };
        Ok(chunk_serialized_data(cmd_id, data.as_slice(), msg_id))
    }

    proof fn lemma_serialized_takes_end(v: ClientCommand, msg_id: MsgId) {
        match v {
            ClientCommand::Login(name) => {
                if encode_utf8(name).len() <= 256 {
                    lemma_chunked_end_can_be_added(LOGIN_ID, login_request_bytes(name), msg_id);
                }
            },
            ClientCommand::Update(os) => {
                lemma_chunked_end_can_be_added(UPDATE_OBJS_ID, objects_bytes(os), msg_id);
            },
            ClientCommand::GetIds(n) => {
                lemma_chunked_end_can_be_added(ID_FETCH_ID, u32_be(n), msg_id);
            },
        }
    }

    fn serialize_is_safe(&self) -> (res: bool) {
        match self {
            ClientCommandType::Update(objs) => objects_fit(objs.as_slice()),
            ClientCommandType::UpdateReadOnly(objs) => objects_fit(objs),
            _ => true,
        }
    }

    fn deserialize_is_safe(chunks: &ChunkedMsg) -> (res: bool) {
        true
    }

    fn deserialize(chunks: ChunkedMsg) -> (res: Result<(Self, MsgId), ProtocolError>) {
        let (data, cmd_id, msg_id) = match dechunk_serialized_data(chunks) {
            Ok(x) => x,
            Err(e) => {
                return Err(e);
            },
        };
        if cmd_id == LOGIN_ID {
            if data.len() == 0 {
                return Err(ProtocolError::LoginTooShort);
            }
            let name_len = data[0] as usize;
            if data.len() < 1 + name_len {
                return Err(ProtocolError::LoginTooShort);
            }
            let rest = copy_range(data.as_slice(), 1, data.len());
            match string_from_utf8(rest.as_slice()) {
                Some(name) => Ok((ClientCommandType::Login(name), msg_id)),
                None => Err(ProtocolError::InvalidUtf8),
            }
        } else if cmd_id == UPDATE_OBJS_ID {
            match deserialize_update(data.as_slice()) {
                Ok(objs) => Ok((ClientCommandType::Update(objs), msg_id)),
                Err(e) => Err(e),
            }
        } else if cmd_id == ID_FETCH_ID {
            match deserialize_id_request(data.as_slice()) {
                Ok(n) => Ok((ClientCommandType::GetIds(n), msg_id)),
                Err(e) => Err(e),
            }
        } else {
            Err(ProtocolError::UnknownCommand(cmd_id))
        }
    }
}

/// The paths of a login reply fit their length bytes.
pub open spec fn login_fits(l: LoginView) -> bool {
    &&& encode_utf8(l.lighting.hdr).len() <= 255
    &&& encode_utf8(l.lighting.skybox).len() <= 255
}

impl Serializeable for ServerCommandType {
    open spec fn spec_serialize(v: ServerCommand, msg_id: MsgId) -> Result<Map<u8, Seq<u8>>, ProtocolError> {
        match v {
            ServerCommand::ReturnLogin(l) => Ok(chunked_message(LOGIN_ID, login_bytes(l), msg_id)),
            ServerCommand::Update(os) => Ok(chunked_message(UPDATE_OBJS_ID, objects_bytes(os), msg_id)),
            ServerCommand::ReturnIds(ids) => Ok(
                chunked_message(ID_FETCH_ID, u32_be(ids.0@) + u32_be(ids.1@), msg_id),
            ),
        }
    }

    open spec fn serialize_requires(v: ServerCommand) -> bool {
        match v {
            ServerCommand::ReturnLogin(l) => login_fits(l),
            ServerCommand::Update(os) => update_fits(os),
            _ => true,
        }
    }

    open spec fn spec_deserialize(chunks: Map<u8, Seq<u8>>) -> Result<(ServerCommand, MsgId), ProtocolError> {
        match dechunk_result(packets_in_order(chunks)) {
            Err(e) => Err(e),
            Ok((data, cmd_id, msg_id)) => match parse_server_command(data, cmd_id) {
                Ok(c) => Ok((c, msg_id)),
                Err(e) => Err(e),
            },
        }
    }

    open spec fn deserialize_requires(chunks: Map<u8, Seq<u8>>) -> bool {
        &&& dechunk_result(packets_in_order(chunks)) matches Ok((data, cmd_id, _)) ==> (cmd_id
            == LOGIN_ID ==> login_readable(data))
    }

    fn serialize(&self, msg_id: MsgId) -> (res: Result<ChunkedMsg, ProtocolError>) {
        let (data, cmd_id) = match self {
            ServerCommandType::ReturnLogin(login) => serialize_login(login),
            ServerCommandType::Update(objects) => serialize_objects(objects.as_slice()),
            ServerCommandType::ReturnIds(ids) => serialize_id_range(*ids),
        };
        proof {
            if let ServerCommandType::ReturnLogin(login) = self {
                lemma_login_bytes_len(login@);
            }
        }
        Ok(chunk_serialized_data(cmd_id, data.as_slice(), msg_id))
    }

    proof fn lemma_serialized_takes_end(v: ServerCommand, msg_id: MsgId) {
        match v {
            ServerCommand::ReturnLogin(l) => {
                lemma_login_bytes_len(l);
                lemma_chunked_end_can_be_added(LOGIN_ID, login_bytes(l), msg_id);
            },
            ServerCommand::Update(os) => {
                lemma_chunked_end_can_be_added(UPDATE_OBJS_ID, objects_bytes(os), msg_id);
            },
            ServerCommand::ReturnIds(ids) => {
                lemma_chunked_end_can_be_added(
                    ID_FETCH_ID,
                    u32_be(ids.0@) + u32_be(ids.1@),
                    msg_id,
                );
            },
        }
    }

    fn serialize_is_safe(&self) -> (res: bool) {
        match self {
            ServerCommandType::ReturnLogin(l) => l.lighting.hdr.as_str().as_bytes().len() <= 255
                && l.lighting.skybox.as_str().as_bytes().len() <= 255,
            ServerCommandType::Update(objs) => objects_fit(objs.as_slice()),
            ServerCommandType::ReturnIds(_) => true,
        }
    }

    fn deserialize_is_safe(chunks: &ChunkedMsg) -> (res: bool) {
        match dechunk_serialized_data(chunks.clone()) {
            Ok((data, cmd_id, _)) => cmd_id != LOGIN_ID || login_is_readable(data.as_slice()),
            Err(_) => true,
        }
    }

    fn deserialize(chunks: ChunkedMsg) -> (res: Result<(Self, MsgId), ProtocolError>) {
        let (data, cmd_id, msg_id) = match dechunk_serialized_data(chunks) {
            Ok(x) => x,
            Err(e) => {
                return Err(e);
            },
        };
        if cmd_id == LOGIN_ID {
            match deserialize_login(data.as_slice()) {
                Ok(login) => Ok((ServerCommandType::ReturnLogin(login), msg_id)),
                Err(e) => Err(e),
            }
        } else if cmd_id == UPDATE_OBJS_ID {
            match deserialize_update(data.as_slice()) {
                Ok(objs) => Ok((ServerCommandType::Update(objs), msg_id)),
                Err(e) => Err(e),
            }
        } else if cmd_id == ID_FETCH_ID {
            match deserialize_id_range(data.as_slice()) {
                Ok(ids) => Ok((ServerCommandType::ReturnIds(ids), msg_id)),
                Err(e) => Err(e),
            }
        } else {
            Err(ProtocolError::UnknownCommand(cmd_id))
        }
    }
}

/// A login reply is at most 560 bytes long.
pub proof fn lemma_login_bytes_len(l: LoginView)
    requires
        login_fits(l),
    ensures
        login_bytes(l).len() <= 50 + 255 + 255,
{
}

/// Data that travels in at most 255 packets, the most that a message is split into.
pub open spec fn fits_in_message(len: nat) -> bool {
    len <= 255 * CHUNK_PAYLOAD_SIZE
}

/// A chunked message of data that fits can be joined, and joins to the data.
proof fn lemma_message_joins(cmd_id: u8, data: Seq<u8>, msg_id: u32)
    requires
        fits_in_message(data.len()),
    ensures
        0 < chunked_message(cmd_id, data, msg_id).len() <= 255,
        dechunk_result(packets_in_order(chunked_message(cmd_id, data, msg_id))) == Ok::<
            (Seq<u8>, u8, u32),
            ProtocolError,
        >((data, cmd_id, msg_id)),
{
    lemma_chunked_message_len(cmd_id, data, msg_id);
    lemma_chunk_dechunk_roundtrip(cmd_id, data, msg_id);
}

/// A login request reads back as the name it was made from.
proof fn lemma_login_request_roundtrip(name: Seq<char>)
    requires
        encode_utf8(name).len() <= 256,
    ensures
        parse_login_request(login_request_bytes(name)) == Ok::<Seq<char>, ProtocolError>(name),
{
    broadcast use {vstd::utf8::encode_utf8_valid_utf8, vstd::utf8::encode_utf8_decode_utf8};

    let nb = encode_utf8(name);
    let data = login_request_bytes(name);
    assert(data.subrange(1, data.len() as int) =~= nb);
}

/// The values that survive being sent to the server and read back.
pub open spec fn client_command_survives(v: ClientCommand) -> bool {
    match v {
        ClientCommand::Login(name) => encode_utf8(name).len() <= 256,
        ClientCommand::Update(os) => fits_in_message(
            objects_bytes(os).len(),
        ),
        ClientCommand::GetIds(_) => true,
    }
}

/// A client command read back from its message is the command and its message id, for
/// every command that survives the transfer (names of at most 256 bytes, updates that fit
/// into 255 packets).
pub proof fn lemma_client_command_roundtrip(v: ClientCommand, msg_id: MsgId)
    requires
        client_command_survives(v),
    ensures
        ClientCommandType::serialize_requires(v),
        ClientCommandType::spec_serialize(v, msg_id) is Ok,
        ClientCommandType::deserialize_requires(ClientCommandType::spec_serialize(v, msg_id).unwrap()),
        ClientCommandType::spec_deserialize(ClientCommandType::spec_serialize(v, msg_id).unwrap())
            == Ok::<(ClientCommand, MsgId), ProtocolError>((v, msg_id)),
{
    match v {
        ClientCommand::Login(name) => {
            lemma_message_joins(LOGIN_ID, login_request_bytes(name), msg_id);
            lemma_login_request_roundtrip(name);
        },
        ClientCommand::Update(os) => {
            lemma_message_joins(UPDATE_OBJS_ID, objects_bytes(os), msg_id);
            lemma_update_roundtrip(os);
        },
        ClientCommand::GetIds(n) => {
            lemma_message_joins(ID_FETCH_ID, u32_be(n), msg_id);
            lemma_u32_be_roundtrip(n);
        },
    }
}

/// A login reply reads back as the reply it was made from, when its two paths fit their
/// length bytes and together take at least two bytes.
pub proof fn lemma_login_roundtrip(l: LoginView)
    requires
        login_fits(l),
        encode_utf8(l.lighting.hdr).len() + encode_utf8(l.lighting.skybox).len() >= 2,
    ensures
        login_readable(login_bytes(l)),
        parse_login(login_bytes(l)) == Ok::<LoginView, ProtocolError>(l),
{
    broadcast use {vstd::utf8::encode_utf8_valid_utf8, vstd::utf8::encode_utf8_decode_utf8};

    let hb = encode_utf8(l.lighting.hdr);
    let sb = encode_utf8(l.lighting.skybox);
    let d = login_bytes(l);
    let h = hb.len() as int;
    assert(d.len() == 50 + hb.len() + sb.len());
    assert(d[48] == hb.len() as u8);
    assert(login_hdr_len(d) == h);
    assert(login_hdr_bytes(d) =~= hb);
    assert(d[49 + h] == sb.len() as u8);
    assert(login_skybox_bytes(d) =~= sb);
    assert(d.subrange(0, 4) =~= u32_be(l.pid@));
    assert(d.subrange(4, 12) =~= u64_be(l.spawn_pos[0]));
    assert(d.subrange(12, 20) =~= u64_be(l.spawn_pos[1]));
    assert(d.subrange(20, 28) =~= u64_be(l.spawn_pos[2]));
    assert(d.subrange(28, 32) =~= u32_be(l.lighting.dir_light[0]));
    assert(d.subrange(32, 36) =~= u32_be(l.lighting.dir_light[1]));
    assert(d.subrange(36, 40) =~= u32_be(l.lighting.dir_light[2]));
    assert(d.subrange(40, 44) =~= u32_be(l.starting_ids.0@));
    assert(d.subrange(44, 48) =~= u32_be(l.starting_ids.1@));
    lemma_u32_be_roundtrip(l.pid@);
    lemma_u64_be_roundtrip(l.spawn_pos[0]);
    lemma_u64_be_roundtrip(l.spawn_pos[1]);
    lemma_u64_be_roundtrip(l.spawn_pos[2]);
    lemma_u32_be_roundtrip(l.lighting.dir_light[0]);
    lemma_u32_be_roundtrip(l.lighting.dir_light[1]);
    lemma_u32_be_roundtrip(l.lighting.dir_light[2]);
    lemma_u32_be_roundtrip(l.starting_ids.0@);
    lemma_u32_be_roundtrip(l.starting_ids.1@);
    let p = parse_login(d).unwrap();
    lemma_object_id_ext(p.pid, l.pid);
    lemma_object_id_ext(p.starting_ids.0, l.starting_ids.0);
    lemma_object_id_ext(p.starting_ids.1, l.starting_ids.1);
    assert(p.spawn_pos =~= l.spawn_pos);
    assert(p.lighting.dir_light =~= l.lighting.dir_light);
}

/// The values that survive being sent to a client and read back.
pub open spec fn server_command_survives(v: ServerCommand) -> bool {
    match v {
        ServerCommand::ReturnLogin(l) => login_fits(l) && encode_utf8(l.lighting.hdr).len()
            + encode_utf8(l.lighting.skybox).len() >= 2,
        ServerCommand::Update(os) => fits_in_message(
            objects_bytes(os).len(),
        ),
        ServerCommand::ReturnIds(_) => true,
    }
}

/// A server command read back from its message is the command and its message id, for
/// every command that survives the transfer (login replies whose paths take between 2 and
/// 510 bytes, updates that fit into 255 packets).
pub proof fn lemma_server_command_roundtrip(v: ServerCommand, msg_id: MsgId)
    requires
        server_command_survives(v),
    ensures
        ServerCommandType::serialize_requires(v),
        ServerCommandType::spec_serialize(v, msg_id) is Ok,
        ServerCommandType::deserialize_requires(ServerCommandType::spec_serialize(v, msg_id).unwrap()),
        ServerCommandType::spec_deserialize(ServerCommandType::spec_serialize(v, msg_id).unwrap())
            == Ok::<(ServerCommand, MsgId), ProtocolError>((v, msg_id)),
{
    match v {
        ServerCommand::ReturnLogin(l) => {
            lemma_login_bytes_len(l);
            lemma_message_joins(LOGIN_ID, login_bytes(l), msg_id);
            lemma_login_roundtrip(l);
        },
        ServerCommand::Update(os) => {
            lemma_message_joins(UPDATE_OBJS_ID, objects_bytes(os), msg_id);
            lemma_update_roundtrip(os);
        },
        ServerCommand::ReturnIds(ids) => {
            let data = u32_be(ids.0@) + u32_be(ids.1@);
            lemma_message_joins(ID_FETCH_ID, data, msg_id);
            assert(data.subrange(0, 4) =~= u32_be(ids.0@));
            assert(data.subrange(4, 8) =~= u32_be(ids.1@));
            lemma_u32_be_roundtrip(ids.0@);
            lemma_u32_be_roundtrip(ids.1@);
            lemma_object_id_ext(ids.0, object_id_from(u32_of_be(data.subrange(0, 4))));
            lemma_object_id_ext(ids.1, object_id_from(u32_of_be(data.subrange(4, 8))));
        },
    }
}

} // verus!
