//! A drive that uploads and downloads bytes as messages of a chat service,
//! and the chunk table that gives it a standard read/write interface.
use vstd::prelude::*;
use vstd::slice::{slice_subrange, slice_to_vec};
use crate::bridge::{BridgeError, ChatServiceBridge};
use crate::config::Config;
use crate::layout::{
    chunks_of, fit_to, lemma_chunk_range, lemma_chunks_flatten, lemma_chunks_of_pieces,
    lemma_chunks_single, lemma_fit_to, piece_end,
    lemma_replace_window, lemma_splice, lemma_uniform_flatten_len, lemma_uniform_window, lemma_whole_chunks, splice,
    uniform, zero_bytes, zeros,
};

verus! {

broadcast use vstd::map_lib::lemma_submap_of_trans;

/// Why a read or a write of the drive failed.
#[derive(Debug, PartialEq, Eq)]
pub enum DriveError {
    /// The chat service failed or refused a request.
    Bridge(BridgeError),
    /// A downloaded chunk was longer than the chunk size.
    ChunkTooLong,
}

/// The bytes held under `ids`, one message after the other.
pub open spec fn joined(ids: Seq<u64>, messages: Map<u64, Seq<u8>>) -> Seq<u8> {
    Seq::new(ids.len(), |k: int| messages[ids[k]]).flatten()
}

/// Every id of `ids` names a message that is held.
pub open spec fn all_held(ids: Seq<u64>, messages: Map<u64, Seq<u8>>) -> bool {
    forall|k: int| 0 <= k < ids.len() ==> messages.contains_key(#[trigger] ids[k])
}

/// `ids` name held messages that are, in order, the pieces of at most `m`
/// bytes that `bytes` splits into.
pub open spec fn holds_pieces(
    ids: Seq<u64>,
    messages: Map<u64, Seq<u8>>,
    bytes: Seq<u8>,
    m: nat,
) -> bool {
    &&& ids.len() == chunks_of(bytes, m).len()
    &&& forall|k: int|
        0 <= k < ids.len() ==> {
            &&& messages.contains_key(#[trigger] ids[k])
            &&& messages[ids[k]] == chunks_of(bytes, m)[k]
        }
}

/// Downloading the messages that an upload returned gives the uploaded
/// bytes back.
pub proof fn lemma_download_after_upload(
    ids: Seq<u64>,
    messages: Map<u64, Seq<u8>>,
    bytes: Seq<u8>,
    m: nat,
)
    requires
        m > 0,
        holds_pieces(ids, messages, bytes, m),
    ensures
        all_held(ids, messages),
        joined(ids, messages) == bytes,
{
    lemma_chunks_flatten(bytes, m);
    assert(Seq::new(ids.len(), |k: int| messages[ids[k]]) =~= chunks_of(bytes, m));
}

/// The messages that an upload returned hold the data cut into pieces of
/// `m` bytes, in order, only the last one possibly shorter: there are
/// `len / m` of them, rounded up, and the `k`-th holds the bytes from `k * m`
/// to `(k + 1) * m`, or to the end.
pub proof fn lemma_uploaded_pieces(
    ids: Seq<u64>,
    messages: Map<u64, Seq<u8>>,
    bytes: Seq<u8>,
    m: nat,
)
    requires
        m > 0,
        holds_pieces(ids, messages, bytes, m),
    ensures
        ids.len() == (bytes.len() + m - 1) / (m as int),
        forall|k: int|
            0 <= k < ids.len() ==> messages[#[trigger] ids[k]] == bytes.subrange(
                k * m,
                piece_end(k, m, bytes.len()),
            ),
        forall|k: int| 0 <= k < ids.len() - 1 ==> messages[#[trigger] ids[k]].len() == m,
{
    lemma_chunks_of_pieces(bytes, m);
    assert forall|k: int| 0 <= k < ids.len() - 1 implies messages[#[trigger] ids[k]].len() == m by {
        crate::layout::lemma_piece_start(k + 1, bytes.len() as int, m as int);
        crate::layout::lemma_piece_start(k, bytes.len() as int, m as int);
    }
}

/// A DiscordDrive is used to upload and download arrays of bytes to and from
/// a chat service. Chunking is handled automatically but the read/write
/// interface is non-standard. Use ChunkManager to obtain a standard
/// read/write interface with a DiscordDrive.
pub struct DiscordDrive<T: ChatServiceBridge> {
    bridge: T,
}

impl<T: ChatServiceBridge> DiscordDrive<T> {
    /// The chat service that the drive talks to.
    pub closed spec fn bridge(&self) -> T {
        self.bridge
    }

    /// The messages that the drive's chat service holds.
    pub open spec fn messages(&self) -> Map<u64, Seq<u8>> {
        self.bridge().messages()
    }

    /// Every request to the drive's chat service succeeds.
    pub open spec fn available(&self) -> bool {
        self.bridge().available()
    }

    /// Attempt to create a DiscordDrive from a config. Config needs to
    /// contain a valid bot token and valid message channel which the bot can
    /// read and write from: the drive talks to the service that
    /// `T::new` connects to with the config's token and channel, or the
    /// attempt fails with `T::new`'s error. Whether the service accepts them
    /// is the service's affair.
    pub fn new(config: Config) -> (r: Result<Self, BridgeError>)
        ensures
            r matches Ok(d) ==> exists|t: &str|
                t@ == config.token@ && #[trigger] call_ensures(
                    T::new,
                    (t, config.channel),
                    Ok::<T, BridgeError>(d.bridge()),
                ),
            r matches Err(e) ==> exists|t: &str|
                t@ == config.token@ && #[trigger] call_ensures(
                    T::new,
                    (t, config.channel),
                    Err::<T, BridgeError>(e),
                ),
    {
        let token = config.token.as_str();
        let opened = T::new(token, config.channel);
        let r = match opened {
            Ok(bridge) => Ok(DiscordDrive { bridge }),
            Err(e) => Err(e),
        };
        assert(r matches Ok(d) ==> opened == Ok::<T, BridgeError>(d.bridge()));
        r
    }

    /// A drive over a chat service that is already connected.
    pub fn from_bridge(bridge: T) -> (d: Self)
        ensures
            d.bridge() == bridge,
    {
        DiscordDrive { bridge }
    }

    /// Uploads bytes in slice and returns a list of message ids which
    /// contain the bytes, one message per chunk of at most `MAX_FILE_SIZE`
    /// bytes. The result of this function can be fed into
    /// DiscordDrive::download_bytes to read the data back.
    pub fn upload_bytes(&mut self, bytes: &[u8]) -> (r: Result<Vec<u64>, DriveError>)
        requires
            T::MAX_FILE_SIZE > 0,
        ensures
            old(self).messages().submap_of(final(self).messages()),
            r matches Ok(ids) ==> holds_pieces(
                ids@,
                final(self).messages(),
                bytes@,
                T::MAX_FILE_SIZE as nat,
            ),
            r matches Ok(ids) ==> forall|k: int|
                0 <= k < ids@.len() ==> !old(self).messages().contains_key(#[trigger] ids@[k]),
            r matches Ok(ids) ==> ids@.len() == (bytes@.len() + T::MAX_FILE_SIZE - 1) / (
            T::MAX_FILE_SIZE as int),
            r matches Ok(ids) ==> forall|k: int|
                0 <= k < ids@.len() ==> final(self).messages()[#[trigger] ids@[k]]
                    == bytes@.subrange(
                    k * T::MAX_FILE_SIZE,
                    piece_end(k, T::MAX_FILE_SIZE as nat, bytes@.len()),
                ),
            r is Err ==> bytes@.len() > 0,
            r matches Err(e) ==> e is Bridge,
            bytes@.len() == 0 ==> final(self).messages() == old(self).messages(),
            final(self).available() == old(self).available(),
            old(self).available() ==> r is Ok,
    {
        let m: usize = T::MAX_FILE_SIZE;
        let ghost mm = m as nat;
        let ghost whole = bytes@;
        let mut ids: Vec<u64> = Vec::new();
        let mut pos: usize = 0;
        let ghost mut done: Seq<Seq<u8>> = Seq::empty();
        assert(whole.skip(0) =~= whole);
        while pos < bytes.len()
            invariant
                m == T::MAX_FILE_SIZE,
                mm == m,
                m > 0,
                whole == bytes@,
                pos <= bytes@.len(),
                chunks_of(whole, mm) == done + chunks_of(whole.skip(pos as int), mm),
                ids@.len() == done.len(),
                old(self).messages().submap_of(self.messages()),
                forall|k: int|
                    0 <= k < ids@.len() ==> {
                        &&& self.messages().contains_key(#[trigger] ids@[k])
                        &&& self.messages()[ids@[k]] == done[k]
                        &&& !old(self).messages().contains_key(ids@[k])
                    },
                pos == 0 ==> self.messages() == old(self).messages(),
                self.available() == old(self).available(),
            decreases bytes@.len() - pos,
        {
            let end: usize = if bytes.len() - pos <= m {
                bytes.len()
            } else {
                pos + m
            };
            let piece = slice_subrange(bytes, pos, end);
            let ghost rest = whole.skip(pos as int);
            assert(piece@ == chunks_of(rest, mm)[0] && chunks_of(rest, mm) == seq![piece@]
                + chunks_of(whole.skip(end as int), mm)) by {
                if rest.len() <= mm {
                    assert(rest =~= piece@);
                    assert(whole.skip(end as int) =~= Seq::<u8>::empty());
                    assert(chunks_of(whole.skip(end as int), mm) =~= Seq::<Seq<u8>>::empty());
                    assert(seq![piece@] + Seq::<Seq<u8>>::empty() =~= seq![piece@]);
                } else {
                    assert(rest.take(m as int) =~= piece@);
                    assert(rest.skip(m as int) =~= whole.skip(end as int));
                }
            }
            let ghost old_ids = ids@;
            let id: u64 = match self.bridge.send_message(piece) {
                Ok(id) => id,
                Err(e) => {
                    return Err(DriveError::Bridge(e));
                },
            };
            ids.push(id);
            proof {
                assert(done + chunks_of(rest, mm) =~= done.push(piece@) + chunks_of(
                    whole.skip(end as int),
                    mm,
                ));
                done = done.push(piece@);
                assert forall|k: int| 0 <= k < ids@.len() implies {
                    &&& self.messages().contains_key(#[trigger] ids@[k])
                    &&& self.messages()[ids@[k]] == done[k]
                    &&& !old(self).messages().contains_key(ids@[k])
                } by {
                    if k < ids@.len() - 1 {
                        assert(ids@[k] == old_ids[k]);
                        assert(self.messages().dom().contains(old_ids[k]));
                    }
                }
            }
            pos = end;
        }
        proof {
            assert(whole.skip(pos as int) =~= Seq::<u8>::empty());
            assert(done + Seq::<Seq<u8>>::empty() =~= done);
            lemma_chunks_of_pieces(whole, mm);
        }
        Ok(ids)
    }

    /// Download bytes from a list of message ids returned from
    /// DiscordDrive::upload_bytes: the messages' bytes, one after the other,
    /// as the service answered; or the first error that the service answered.
    pub fn download_bytes(&self, ids: &[u64]) -> (r: Result<Vec<u8>, DriveError>)
        ensures
            r matches Ok(out) ==> exists|got: Seq<Vec<u8>>|
                #[trigger] answered(self.bridge(), ids@, got) && out@ == received(got),
            r matches Ok(out) ==> all_held(ids@, self.messages()) ==> out@ == joined(
                ids@,
                self.messages(),
            ),
            r matches Err(e) ==> e is Bridge,
            r matches Err(DriveError::Bridge(e)) ==> exists|k: int|
                0 <= k < ids@.len() && #[trigger] call_ensures(
                    T::get_message,
                    (&self.bridge(), ids@[k]),
                    Err::<Vec<u8>, BridgeError>(e),
                ),
            self.available() ==> r is Ok,
    {
        let mut out: Vec<u8> = Vec::new();
        let mut k: usize = 0;
        let ghost mut pieces: Seq<Seq<u8>> = Seq::empty();
        let ghost mut got: Seq<Vec<u8>> = Seq::empty();
        while k < ids.len()
            invariant
                k <= ids@.len(),
                pieces.len() == k,
                got.len() == k,
                out@ == pieces.flatten(),
                forall|j: int| 0 <= j < k ==> #[trigger] pieces[j] == got[j]@,
                forall|j: int|
                    0 <= j < k ==> #[trigger] call_ensures(
                        T::get_message,
                        (&self.bridge(), ids@[j]),
                        Ok::<Vec<u8>, BridgeError>(got[j]),
                    ),
                forall|j: int|
                    0 <= j < k && self.messages().contains_key(ids@[j]) ==> #[trigger] pieces[j]
                        == self.messages()[ids@[j]],
            decreases ids@.len() - k,
        {
            let answer = self.bridge.get_message(ids[k]);
            assert(call_ensures(T::get_message, (&self.bridge(), ids@[k as int]), answer));
            let mut data = match answer {
                Ok(data) => data,
                Err(e) => {
                    return Err(DriveError::Bridge(e));
                },
            };
            proof {
                pieces.lemma_flatten_push(data@);
                pieces = pieces.push(data@);
                got = got.push(data);
            }
            out.append(&mut data);
            k += 1;
        }
        proof {
            if all_held(ids@, self.messages()) {
                assert(pieces =~= Seq::new(ids@.len(), |j: int| self.messages()[ids@[j]]));
            }
            assert(pieces =~= Seq::new(got.len(), |j: int| got[j]@));
            assert(answered(self.bridge(), ids@, got));
        }
        Ok(out)
    }
}

/// `got` holds what the service `bridge` answered, in order, to the requests
/// for the messages `ids`.
pub open spec fn answered<T: ChatServiceBridge>(bridge: T, ids: Seq<u64>, got: Seq<Vec<u8>>) -> bool {
    &&& got.len() == ids.len()
    &&& forall|k: int|
        0 <= k < ids.len() ==> #[trigger] call_ensures(
            T::get_message,
            (&bridge, ids[k]),
            Ok::<Vec<u8>, BridgeError>(got[k]),
        )
}

/// The bytes of the answers `got`, one after the other.
pub open spec fn received(got: Seq<Vec<u8>>) -> Seq<u8> {
    Seq::new(got.len(), |k: int| got[k]@).flatten()
}

/// What chunk `entry` of a chunk table holds: the message it names, brought
/// to `m` bytes, or `m` zero bytes where no message was uploaded yet.
pub open spec fn chunk_content(entry: Option<u64>, messages: Map<u64, Seq<u8>>, m: nat) -> Seq<
    u8,
> {
    match entry {
        Some(id) => fit_to(messages[id], m),
        None => zeros(m),
    }
}

/// The chunks of a chunk table, in order.
pub open spec fn chunk_contents(table: Seq<Option<u64>>, messages: Map<u64, Seq<u8>>, m: nat) -> Seq<
    Seq<u8>,
> {
    Seq::new(table.len(), |i: int| chunk_content(table[i], messages, m))
}

/// The bytes of the device that a chunk table describes: its chunks one
/// after the other.
pub open spec fn device_contents(table: Seq<Option<u64>>, messages: Map<u64, Seq<u8>>, m: nat) -> Seq<
    u8,
> {
    chunk_contents(table, messages, m).flatten()
}

/// Every message that the chunk table names is held by the service and is
/// no longer than a chunk.
pub open spec fn tracks(table: Seq<Option<u64>>, messages: Map<u64, Seq<u8>>, m: nat) -> bool {
    forall|i: int|
        0 <= i < table.len() ==> (#[trigger] table[i] matches Some(id) ==> messages.contains_key(id)
            && messages[id].len() <= m)
}

/// Every message that chunks `lo ..= hi` of the table name is held by the
/// service and is no longer than a chunk.
pub open spec fn tracks_within(
    table: Seq<Option<u64>>,
    messages: Map<u64, Seq<u8>>,
    m: nat,
    lo: int,
    hi: int,
) -> bool {
    forall|i: int|
        lo <= i <= hi && 0 <= i < table.len() ==> (#[trigger] table[i] matches Some(id)
            ==> messages.contains_key(id) && messages[id].len() <= m)
}

/// The index of the chunk that holds byte `start`.
pub open spec fn first_chunk(start: int, m: nat) -> int {
    start / (m as int)
}

/// The index of the last chunk that a range of `len` bytes from `start`
/// reaches: the one that holds byte `start + len`.
pub open spec fn last_chunk(start: int, len: int, m: nat) -> int {
    (start + len) / (m as int)
}

/// Every chunk has `m` bytes, so the device has `m` bytes per chunk.
pub proof fn lemma_contents_uniform(table: Seq<Option<u64>>, messages: Map<u64, Seq<u8>>, m: nat)
    ensures
        uniform(chunk_contents(table, messages, m), m),
        device_contents(table, messages, m).len() == table.len() * m,
{
    let cs = chunk_contents(table, messages, m);
    assert forall|i: int| 0 <= i < cs.len() implies #[trigger] cs[i].len() == m by {
        match table[i] {
            Some(id) => lemma_fit_to(messages[id], m),
            None => {},
        }
    }
    lemma_uniform_flatten_len(cs, m);
}

/// Byte `p` of the device is byte `p % m` of chunk `p / m`.
pub proof fn lemma_device_byte(
    table: Seq<Option<u64>>,
    messages: Map<u64, Seq<u8>>,
    m: nat,
    p: int,
)
    requires
        m > 0,
        0 <= p < table.len() * m,
    ensures
        device_contents(table, messages, m)[p] == chunk_content(
            table[p / (m as int)],
            messages,
            m,
        )[p % (m as int)],
{
    let mi = m as int;
    let a = p / mi;
    let cs = chunk_contents(table, messages, m);
    lemma_contents_uniform(table, messages, m);
    vstd::arithmetic::div_mod::lemma_fundamental_div_mod(p, mi);
    vstd::arithmetic::div_mod::lemma_mod_pos_bound(p, mi);
    vstd::arithmetic::div_mod::lemma_div_pos_is_pos(p, mi);
    vstd::arithmetic::mul::lemma_mul_is_commutative(mi, a);
    assert(a < table.len()) by {
        vstd::arithmetic::div_mod::lemma_div_is_ordered(p, table.len() * mi - 1, mi);
        vstd::arithmetic::div_mod::lemma_div_multiples_vanish(table.len() as int, mi);
        vstd::arithmetic::mul::lemma_mul_is_commutative(mi, table.len() as int);
        if a >= table.len() {
            vstd::arithmetic::mul::lemma_mul_inequality(table.len() as int, a, mi);
        }
    }
    lemma_uniform_window(cs, m, a, 1);
    assert(cs.subrange(a, a + 1) =~= seq![cs[a]]);
    seq![cs[a]].lemma_flatten_singleton();
    let d = device_contents(table, messages, m);
    vstd::arithmetic::mul::lemma_mul_inequality(a + 1, table.len() as int, mi);
    assert(a * m + 1 * m == (a + 1) * m);
    assert(d.len() == table.len() * m);
    assert(d.subrange(a * m, (a + 1) * m) == cs[a]);
    assert(p - a * mi == p % mi);
    assert(d[p] == d.subrange(a * m, (a + 1) * m)[p - a * mi]);
}

/// Reading what a write put gives it back, and the bytes around it are
/// those from before.
pub proof fn lemma_read_after_write(contents: Seq<u8>, start: int, data: Seq<u8>)
    requires
        0 <= start,
        start + data.len() <= contents.len(),
    ensures
        splice(contents, start, data).len() == contents.len(),
        splice(contents, start, data).subrange(start, start + data.len()) == data,
        forall|p: int|
            0 <= p < contents.len() && !(start <= p < start + data.len()) ==> #[trigger] splice(
                contents,
                start,
                data,
            )[p] == contents[p],
{
    lemma_splice(contents, start, data);
}

/// A second write of as many bytes at the same place overrides the first
/// one entirely: the device is as if only the second write had happened.
pub proof fn lemma_write_overrides(contents: Seq<u8>, start: int, first: Seq<u8>, second: Seq<u8>)
    requires
        0 <= start,
        start + first.len() <= contents.len(),
        first.len() == second.len(),
    ensures
        splice(splice(contents, start, first), start, second) == splice(contents, start, second),
{
    assert(splice(splice(contents, start, first), start, second) =~= splice(
        contents,
        start,
        second,
    ));
}

/// Writing back the bytes that the device already holds leaves it as it is.
pub proof fn lemma_write_same_is_no_change(contents: Seq<u8>, start: int, len: int)
    requires
        0 <= start,
        0 <= len,
        start + len <= contents.len(),
    ensures
        splice(contents, start, contents.subrange(start, start + len)) == contents,
{
    assert(splice(contents, start, contents.subrange(start, start + len)) =~= contents);
}

/// A chunk table where nothing was uploaded describes a device of zero
/// bytes, whatever the service holds.
pub proof fn lemma_fresh_device_is_zero(n: nat, messages: Map<u64, Seq<u8>>, m: nat)
    ensures
        device_contents(Seq::new(n, |i: int| None::<u64>), messages, m) == zeros(n * m),
        tracks(Seq::new(n, |i: int| None::<u64>), messages, m),
    decreases n,
{
    let table = Seq::new(n, |i: int| None::<u64>);
    let cs = chunk_contents(table, messages, m);
    lemma_contents_uniform(table, messages, m);
    if n > 0 {
        let smaller = Seq::new((n - 1) as nat, |i: int| None::<u64>);
        lemma_fresh_device_is_zero((n - 1) as nat, messages, m);
        assert(chunk_contents(smaller, messages, m) =~= cs.drop_last());
        cs.drop_last().lemma_flatten_push(cs.last());
        assert(cs.drop_last().push(cs.last()) =~= cs);
        vstd::arithmetic::mul::lemma_mul_is_distributive_add_other_way(
            m as int,
            (n - 1) as int,
            1,
        );
        assert(zeros(((n - 1) * m) as nat) + zeros(m) =~= zeros(n * m));
    } else {
        assert(cs =~= Seq::<Seq<u8>>::empty());
        assert(device_contents(table, messages, m) =~= zeros(n * m));
    }
}

/// The service `bridge` answered `got[j]` to the request for the message
/// that chunk `a + j` of the table names, for each of the `n` chunks from
/// `a` on that name one.
pub open spec fn chunks_answered<T: ChatServiceBridge>(
    bridge: T,
    table: Seq<Option<u64>>,
    a: int,
    n: int,
    got: Seq<Vec<u8>>,
) -> bool {
    &&& got.len() == n
    &&& forall|j: int|
        0 <= j < n ==> (#[trigger] table[a + j] matches Some(id) ==> call_ensures(
            T::get_message,
            (&bridge, id),
            Ok::<Vec<u8>, BridgeError>(got[j]),
        ))
}

/// The `n` chunks from `a` on as a read finds them: the answer to its
/// request brought to `m` bytes, or zero bytes where nothing was uploaded.
pub open spec fn read_pieces(
    table: Seq<Option<u64>>,
    a: int,
    n: int,
    got: Seq<Vec<u8>>,
    m: nat,
) -> Seq<Seq<u8>> {
    Seq::new(
        n as nat,
        |j: int|
            match table[a + j] {
                Some(_) => fit_to(got[j]@, m),
                None => zeros(m),
            },
    )
}

/// A downloaded chunk brought to the chunk size `m`: padded with zero
/// bytes, or refused as too long.
pub fn fit_chunk(down: Vec<u8>, m: usize) -> (r: Result<Vec<u8>, DriveError>)
    ensures
        r is Err <==> down@.len() > m,
        r matches Err(e) ==> e == DriveError::ChunkTooLong,
        r matches Ok(v) ==> v@ == fit_to(down@, m as nat),
{
    if down.len() > m {
        return Err(DriveError::ChunkTooLong);
    }
    let ghost got = down@;
    let mut down = down;
    // Pad the data so it has length m
    while down.len() < m
        invariant
            got.len() <= down@.len() <= m,
            down@ == got + zeros((down@.len() - got.len()) as nat),
        decreases m - down@.len(),
    {
        down.push(0);
        assert(down@ =~= got + zeros((down@.len() - got.len()) as nat));
    }
    Ok(down)
}

/// After a write that failed: entries `a .. a + k` of the new table name
/// messages that were not held before and that are held now, with one chunk
/// of `m` bytes each; entries `a + k ..= b` are the old ones.
pub open spec fn replaced_prefix(
    old_table: Seq<Option<u64>>,
    new_table: Seq<Option<u64>>,
    old_msgs: Map<u64, Seq<u8>>,
    msgs: Map<u64, Seq<u8>>,
    m: nat,
    a: int,
    b: int,
    k: int,
) -> bool {
    &&& 0 <= k <= b - a + 1
    &&& forall|i: int|
        a <= i < a + k ==> (#[trigger] new_table[i] matches Some(id) && !old_msgs.contains_key(id)
            && msgs.contains_key(id) && msgs[id].len() == m)
    &&& forall|i: int| a + k <= i <= b ==> #[trigger] new_table[i] == old_table[i]
}

/// A ChunkManager provides a standard read/write interface for a
/// DiscordDrive: a table which maps chunk indexes to message ids.
pub struct ChunkManager {
    /// Table which maps chunk indexes to message ids
    chunk_table: Vec<Option<u64>>,
    /// Whether the table is to be saved to disk after a write
    pub save_to_file: bool,
}

impl View for ChunkManager {
    type V = Seq<Option<u64>>;

    closed spec fn view(&self) -> Seq<Option<u64>> {
        self.chunk_table@
    }
}

impl ChunkManager {
    /// Whether the table is to be saved to disk after a write.
    pub closed spec fn saves(&self) -> bool {
        self.save_to_file
    }

    /// A ChunkManager of `size` chunks, none uploaded yet, to be saved to
    /// disk.
    pub fn new(size: usize) -> (cm: ChunkManager)
        ensures
            cm@ == Seq::new(size as nat, |i: int| None::<u64>),
            cm.saves(),
    {
        let mut chunk_table: Vec<Option<u64>> = Vec::with_capacity(size);
        let mut i: usize = 0;
        while i < size
            invariant
                i <= size,
                chunk_table@ == Seq::new(i as nat, |j: int| None::<u64>),
            decreases size - i,
        {
            chunk_table.push(None);
            i += 1;
            assert(chunk_table@ =~= Seq::new(i as nat, |j: int| None::<u64>));
        }
        ChunkManager { chunk_table, save_to_file: true }
    }

    /// A ChunkManager with the given table, as one that was saved.
    pub fn from_table(chunk_table: Vec<Option<u64>>, save_to_file: bool) -> (cm: ChunkManager)
        ensures
            cm@ == chunk_table@,
            cm.saves() == save_to_file,
    {
        ChunkManager { chunk_table, save_to_file }
    }

    /// Sets whether the table is to be saved to disk after a write; the
    /// table stays as it is.
    pub fn set_save_to_file(&mut self, save: bool)
        ensures
            final(self)@ == old(self)@,
            final(self).saves() == save,
    {
        self.save_to_file = save;
    }

    /// The table of message ids, by chunk index.
    pub fn chunk_table(&self) -> (t: &Vec<Option<u64>>)
        ensures
            t@ == self@,
    {
        &self.chunk_table
    }

    /// The common file path in which the ChunkManager is stored
    pub fn get_file_path() -> (path: &'static str)
        ensures
            path@ == "/etc/discorhdd/chunks.json"@,
    {
        "/etc/discorhdd/chunks.json"
    }

    /// From a starting offset and size, return all of the chunk indexes that
    /// hold the data: from the chunk of `start` to that of `start + len`.
    pub fn get_chunk_indexes<T: ChatServiceBridge>(&self, start: usize, len: usize) -> (idxs: Vec<
        usize,
    >)
        requires
            T::MAX_FILE_SIZE > 0,
            start + len <= usize::MAX,
            last_chunk(start as int, len as int, T::MAX_FILE_SIZE as nat) - first_chunk(
                start as int,
                T::MAX_FILE_SIZE as nat,
            ) < usize::MAX,
        ensures
            ({
                let a: int = first_chunk(start as int, T::MAX_FILE_SIZE as nat);
                let b: int = last_chunk(start as int, len as int, T::MAX_FILE_SIZE as nat);
                idxs@ == Seq::new((b - a + 1) as nat, |i: int| (a + i) as usize)
            }),
    {
        let m: usize = T::MAX_FILE_SIZE;
        let start_idx: usize = start / m;
        let end_idx: usize = (start + len) / m;
        proof {
            lemma_chunk_range(start as int, len as int, m as int);
        }
        let count: usize = end_idx - start_idx + 1;
        let mut idxs: Vec<usize> = Vec::with_capacity(count);
        let mut k: usize = 0;
        while k < count
            invariant
                k <= count,
                count == end_idx - start_idx + 1,
                start_idx <= end_idx,
                idxs@ == Seq::new(k as nat, |j: int| (start_idx + j) as usize),
            decreases count - k,
        {
            idxs.push(start_idx + k);
            k += 1;
            assert(idxs@ =~= Seq::new(k as nat, |j: int| (start_idx + j) as usize));
        }
        idxs
    }

    /// Returns the entirety of every chunk which holds a portion of the
    /// data: chunk after chunk, each brought to the chunk size (a chunk that
    /// was never uploaded reads as zero bytes, without asking the service).
    fn read_entire_chunks<T: ChatServiceBridge>(
        &self,
        start: usize,
        len: usize,
        drive: &DiscordDrive<T>,
    ) -> (r: Result<Vec<u8>, DriveError>)
        requires
            T::MAX_FILE_SIZE > 0,
            start + len <= usize::MAX,
            last_chunk(start as int, len as int, T::MAX_FILE_SIZE as nat) < self@.len(),
        ensures
            ({
                let m: nat = T::MAX_FILE_SIZE as nat;
                let a: int = first_chunk(start as int, m);
                let b: int = last_chunk(start as int, len as int, m);
                &&& r matches Ok(buf) ==> buf@.len() == (b - a + 1) * m
                &&& r matches Ok(buf) ==> exists|got: Seq<Vec<u8>>|
                    #[trigger] chunks_answered(drive.bridge(), self@, a, b - a + 1, got) && buf@
                        == read_pieces(self@, a, b - a + 1, got, m).flatten()
                &&& r matches Ok(buf) ==> tracks_within(self@, drive.messages(), m, a, b) ==> buf@
                    == device_contents(self@, drive.messages(), m).subrange(a * m, (b + 1) * m)
                &&& r is Err ==> exists|i: int| a <= i <= b && (#[trigger] self@[i]) is Some
                &&& r matches Err(DriveError::ChunkTooLong) ==> !tracks_within(
                    self@,
                    drive.messages(),
                    m,
                    a,
                    b,
                )
                &&& r matches Err(DriveError::Bridge(e)) ==> exists|i: int|
                    a <= i <= b && (#[trigger] self@[i]) is Some && call_ensures(
                        T::get_message,
                        (&drive.bridge(), self@[i]->0),
                        Err::<Vec<u8>, BridgeError>(e),
                    )
                &&& drive.available() && tracks_within(self@, drive.messages(), m, a, b) ==> r is Ok
            }),
    {
        let m: usize = T::MAX_FILE_SIZE;
        let ghost mm = m as nat;
        let ghost a = first_chunk(start as int, mm);
        let ghost b = last_chunk(start as int, len as int, mm);
        let ghost n = b - a + 1;
        let ghost msgs = drive.messages();
        let ghost cs = chunk_contents(self@, msgs, mm);
        proof {
            lemma_chunk_range(start as int, len as int, m as int);
            lemma_contents_uniform(self@, msgs, mm);
            assert(self.chunk_table@.len() == self.chunk_table.len());
        }
        let idxs = self.get_chunk_indexes::<T>(start, len);
        let mut buf: Vec<u8> = Vec::with_capacity(len);
        let ghost mut pieces: Seq<Seq<u8>> = Seq::empty();
        let ghost mut got: Seq<Vec<u8>> = Seq::empty();
        let mut j: usize = 0;
        assert(read_pieces(self@, a, 0, got, mm) =~= pieces);
        while j < idxs.len()
            invariant
                m == T::MAX_FILE_SIZE,
                mm == m,
                m > 0,
                msgs == drive.messages(),
                cs == chunk_contents(self@, msgs, mm),
                a == first_chunk(start as int, mm),
                b == last_chunk(start as int, len as int, mm),
                n == b - a + 1,
                0 <= a <= b < self@.len(),
                self@.len() <= usize::MAX,
                idxs@ == Seq::new(n as nat, |i: int| (a + i) as usize),
                j <= idxs@.len(),
                pieces.len() == j,
                uniform(pieces, mm),
                buf@ == pieces.flatten(),
                chunks_answered(drive.bridge(), self@, a, j as int, got),
                pieces == read_pieces(self@, a, j as int, got, mm),
                tracks_within(self@, msgs, mm, a, b) ==> pieces == cs.subrange(a, a + j),
            decreases idxs@.len() - j,
        {
            let idx: usize = idxs[j];
            assert(idx == a + j);
            let ghost expected = cs[idx as int];
            let ghost mut answer: Vec<u8> = vstd::pervasive::arbitrary();
            let mut piece = match self.chunk_table[idx] {
                Some(id) => {
                    let one: [u64; 1] = [id];
                    assert(one@ =~= seq![id]);
                    let down = match drive.download_bytes(one.as_slice()) {
                        Ok(down) => down,
                        Err(e) => {
                            assert(a <= idx as int <= b && self@[idx as int] is Some);
                            assert(seq![id][0] == id);
                            return Err(e);
                        },
                    };
                    proof {
                        let g = choose|g: Seq<Vec<u8>>|
                            #[trigger] answered(drive.bridge(), seq![id], g) && down@ == received(g);
                        answer = g[0];
                        assert(seq![id][0] == id);
                        assert(Seq::new(1, |k: int| g[k]@) =~= seq![answer@]);
                        seq![answer@].lemma_flatten_singleton();
                        assert(down@ == answer@);
                        if tracks_within(self@, msgs, mm, a, b) {
                            assert(all_held(seq![id], msgs)) by {
                                assert(self@[idx as int] is Some);
                            }
                            assert(Seq::new(1, |k: int| msgs[seq![id][k]]) =~= seq![msgs[id]]);
                            seq![msgs[id]].lemma_flatten_singleton();
                            assert(down@ == msgs[id]);
                        }
                    }
                    // Pad the data so it has length MAX_FILE_SIZE
                    match fit_chunk(down, m) {
                        Ok(piece) => piece,
                        Err(e) => {
                            assert(a <= idx as int <= b && self@[idx as int] is Some);
                            return Err(e);
                        },
                    }
                },
                None => {
                    // There's no need to query the service if the chunk
                    // hasn't been uploaded
                    zero_bytes(m)
                },
            };
            proof {
                lemma_fit_to(piece@, mm);
                lemma_fit_to(answer@, mm);
                assert(piece@.len() == mm);
                if tracks_within(self@, msgs, mm, a, b) {
                    assert(piece@ == expected);
                }
                pieces.lemma_flatten_push(piece@);
                assert(cs.subrange(a, a + j + 1) =~= cs.subrange(a, a + j).push(expected));
                let old_got = got;
                got = got.push(answer);
                assert(read_pieces(self@, a, j + 1, got, mm) =~= pieces.push(piece@)) by {
                    assert forall|i: int| 0 <= i < j implies #[trigger] read_pieces(
                        self@,
                        a,
                        j + 1,
                        got,
                        mm,
                    )[i] == read_pieces(self@, a, j as int, old_got, mm)[i] by {
                        assert(got[i] == old_got[i]);
                    }
                }
                assert(chunks_answered(drive.bridge(), self@, a, j + 1, got)) by {
                    assert forall|i: int| 0 <= i < j + 1 implies (#[trigger] self@[a + i] matches Some(
                        id,
                    ) ==> call_ensures(
                        T::get_message,
                        (&drive.bridge(), id),
                        Ok::<Vec<u8>, BridgeError>(got[i]),
                    )) by {
                        if i < j {
                            assert(got[i] == old_got[i]);
                        }
                    }
                }
                pieces = pieces.push(piece@);
                assert forall|i: int| 0 <= i < pieces.len() implies #[trigger] pieces[i].len()
                    == mm by {
                    if i < pieces.len() - 1 {
                        assert(pieces[i] == pieces.drop_last()[i]);
                    }
                }
            }
            buf.append(&mut piece);
            j += 1;
        }
        proof {
            lemma_uniform_flatten_len(pieces, mm);
            lemma_uniform_window(cs, mm, a, b - a + 1);
        }
        Ok(buf)
    }

    /// Reads `len` bytes from byte `start` on. The length of the returned
    /// vector always matches the len argument.
    pub fn read<T: ChatServiceBridge>(
        &self,
        start: usize,
        len: usize,
        drive: &mut DiscordDrive<T>,
    ) -> (r: Result<Vec<u8>, DriveError>)
        requires
            T::MAX_FILE_SIZE > 0,
            start + len <= usize::MAX,
            last_chunk(start as int, len as int, T::MAX_FILE_SIZE as nat) < self@.len(),
        ensures
            final(drive).bridge() == old(drive).bridge(),
            final(drive).messages() == old(drive).messages(),
            r matches Ok(buf) ==> buf@.len() == len,
            r matches Ok(buf) ==> tracks_within(
                self@,
                old(drive).messages(),
                T::MAX_FILE_SIZE as nat,
                first_chunk(start as int, T::MAX_FILE_SIZE as nat),
                last_chunk(start as int, len as int, T::MAX_FILE_SIZE as nat),
            ) ==> buf@ == device_contents(
                self@,
                old(drive).messages(),
                T::MAX_FILE_SIZE as nat,
            ).subrange(start as int, start + len),
            r is Err ==> exists|i: int|
                first_chunk(start as int, T::MAX_FILE_SIZE as nat) <= i <= last_chunk(
                    start as int,
                    len as int,
                    T::MAX_FILE_SIZE as nat,
                ) && (#[trigger] self@[i]) is Some,
            r matches Ok(buf) ==> exists|got: Seq<Vec<u8>>|
                #[trigger] chunks_answered(
                    old(drive).bridge(),
                    self@,
                    first_chunk(start as int, T::MAX_FILE_SIZE as nat),
                    last_chunk(start as int, len as int, T::MAX_FILE_SIZE as nat) - first_chunk(
                        start as int,
                        T::MAX_FILE_SIZE as nat,
                    ) + 1,
                    got,
                ) && buf@ == read_pieces(
                    self@,
                    first_chunk(start as int, T::MAX_FILE_SIZE as nat),
                    last_chunk(start as int, len as int, T::MAX_FILE_SIZE as nat) - first_chunk(
                        start as int,
                        T::MAX_FILE_SIZE as nat,
                    ) + 1,
                    got,
                    T::MAX_FILE_SIZE as nat,
                ).flatten().subrange(
                    start as int % T::MAX_FILE_SIZE as int,
                    start as int % T::MAX_FILE_SIZE as int + len,
                ),
            r matches Err(DriveError::Bridge(e)) ==> exists|i: int|
                first_chunk(start as int, T::MAX_FILE_SIZE as nat) <= i <= last_chunk(
                    start as int,
                    len as int,
                    T::MAX_FILE_SIZE as nat,
                ) && (#[trigger] self@[i]) is Some && call_ensures(
                    T::get_message,
                    (&old(drive).bridge(), self@[i]->0),
                    Err::<Vec<u8>, BridgeError>(e),
                ),
            old(drive).available() && tracks_within(
                self@,
                old(drive).messages(),
                T::MAX_FILE_SIZE as nat,
                first_chunk(start as int, T::MAX_FILE_SIZE as nat),
                last_chunk(start as int, len as int, T::MAX_FILE_SIZE as nat),
            ) ==> r is Ok,
            r matches Err(DriveError::ChunkTooLong) ==> !tracks_within(
                self@,
                old(drive).messages(),
                T::MAX_FILE_SIZE as nat,
                first_chunk(start as int, T::MAX_FILE_SIZE as nat),
                last_chunk(start as int, len as int, T::MAX_FILE_SIZE as nat),
            ),
    {
        let m: usize = T::MAX_FILE_SIZE;
        let buf = match self.read_entire_chunks(start, len, drive) {
            Ok(buf) => buf,
            Err(e) => return Err(e),
        };
        let off: usize = start % m;
        proof {
            lemma_chunk_range(start as int, len as int, m as int);
            lemma_contents_uniform(self@, drive.messages(), m as nat);
        }
        let out = slice_to_vec(slice_subrange(buf.as_slice(), off, off + len));
        proof {
            let mm: nat = m as nat;
            let a: int = first_chunk(start as int, mm);
            let b: int = last_chunk(start as int, len as int, mm);
            if tracks_within(self@, drive.messages(), mm, a, b) {
                let dev = device_contents(self@, drive.messages(), mm);
                assert(buf@ == dev.subrange(a * mm, (b + 1) * mm));
                assert(a * mm + off == start);
                assert(start + len < (b + 1) * mm);
                assert(dev.len() == self@.len() * mm);
                assert((b + 1) * mm <= self@.len() * mm) by {
                    vstd::arithmetic::mul::lemma_mul_inequality(b + 1, self@.len() as int, mm as int);
                }
                assert(buf@.len() == (b - a + 1) * mm);
                assert(off + len <= buf@.len());
                assert forall|i: int| 0 <= i < len implies #[trigger] buf@.subrange(off as int, off + len)[i]
                    == dev.subrange(start as int, start + len)[i] by {
                    assert(buf@[off + i] == dev[a * mm + off + i]);
                }
                assert(buf@.subrange(off as int, off + len) =~= dev.subrange(
                    start as int,
                    start + len,
                ));
            }
        }
        Ok(out)
    }

    /// Writes `data` from byte `start` on: downloads the chunks that the
    /// range touches, copies the data into them at the proper position, and
    /// uploads each of these chunks again as a new message, whose id the
    /// table then holds for it.
    pub fn write<T: ChatServiceBridge>(
        &mut self,
        start: usize,
        data: &[u8],
        drive: &mut DiscordDrive<T>,
    ) -> (r: Result<(), DriveError>)
        requires
            T::MAX_FILE_SIZE > 0,
            start + data@.len() <= usize::MAX,
            last_chunk(start as int, data@.len() as int, T::MAX_FILE_SIZE as nat) < old(self)@.len(),
        ensures
            ({
                let m: nat = T::MAX_FILE_SIZE as nat;
                let a: int = first_chunk(start as int, m);
                let b: int = last_chunk(start as int, data@.len() as int, m);
                let before = device_contents(old(self)@, old(drive).messages(), m);
                let after = device_contents(final(self)@, final(drive).messages(), m);
                let wanted = splice(before, start as int, data@);
                let kept = tracks(old(self)@, old(drive).messages(), m);
                &&& final(self).saves() == old(self).saves()
                &&& final(self)@.len() == old(self)@.len()
                &&& old(drive).messages().submap_of(final(drive).messages())
                &&& forall|i: int|
                    0 <= i < old(self)@.len() && !(a <= i <= b) ==> #[trigger] final(self)@[i]
                        == old(self)@[i]
                &&& kept ==> tracks(final(self)@, final(drive).messages(), m)
                &&& r is Ok ==> after.subrange(start as int, start + data@.len()) == data@
                &&& r is Ok ==> forall|i: int|
                    a <= i <= b ==> (#[trigger] final(self)@[i] matches Some(id) && {
                        &&& !old(drive).messages().contains_key(id)
                        &&& final(drive).messages().contains_key(id)
                        &&& final(drive).messages()[id] == after.subrange(i * m, i * m + m)
                    })
                &&& r is Ok ==> tracks_within(final(self)@, final(drive).messages(), m, a, b)
                &&& r is Ok && kept ==> after == wanted
                &&& r matches Err(DriveError::ChunkTooLong) ==> !kept
                &&& r is Err && kept ==> forall|i: int|
                    a <= i <= b ==> {
                        ||| #[trigger] chunk_contents(final(self)@, final(drive).messages(), m)[i]
                            == chunk_contents(old(self)@, old(drive).messages(), m)[i]
                        ||| chunk_contents(final(self)@, final(drive).messages(), m)[i]
                            == wanted.subrange(i * m, i * m + m)
                    }
                &&& r is Err ==> exists|k: int|
                    #[trigger] replaced_prefix(
                        old(self)@,
                        final(self)@,
                        old(drive).messages(),
                        final(drive).messages(),
                        m,
                        a,
                        b,
                        k,
                    )
                &&& r matches Err(DriveError::ChunkTooLong) ==> {
                    &&& !tracks_within(old(self)@, old(drive).messages(), m, a, b)
                    &&& final(self)@ == old(self)@
                    &&& final(drive).messages() == old(drive).messages()
                }
                &&& r matches Err(DriveError::Bridge(_)) ==> !old(drive).available()
                &&& final(drive).available() == old(drive).available()
                &&& old(drive).available() && tracks_within(old(self)@, old(drive).messages(), m, a, b)
                    ==> r is Ok
            }),
    {
        let m: usize = T::MAX_FILE_SIZE;
        let len: usize = data.len();
        let ghost mm = m as nat;
        let ghost a = first_chunk(start as int, mm);
        let ghost b = last_chunk(start as int, len as int, mm);
        let ghost n = b - a + 1;
        let ghost old_table = self@;
        let ghost old_msgs = drive.messages();
        let ghost cs0 = chunk_contents(old_table, old_msgs, mm);
        let ghost before = cs0.flatten();
        let ghost wanted = splice(before, start as int, data@);
        let ghost kept = tracks(old_table, old_msgs, mm);
        let ghost saves = self.saves();
        proof {
            lemma_chunk_range(start as int, len as int, m as int);
            lemma_contents_uniform(old_table, old_msgs, mm);
            vstd::arithmetic::mul::lemma_mul_inequality(b + 1, old_table.len() as int, mm as int);
            lemma_splice(before, start as int, data@);
        }
        proof {
            assert(self.chunk_table@.len() == self.chunk_table.len());
        }
        // Download all the chunks which contain the data that needs to be
        // written to
        let mut new_data = match self.read_entire_chunks(start, len, drive) {
            Ok(buf) => buf,
            Err(e) => {
                proof {
                    assert(replaced_prefix(
                        old_table,
                        self@,
                        old_msgs,
                        drive.messages(),
                        mm,
                        a,
                        b,
                        0,
                    ));
                    if e is Bridge {
                        let i = choose|i: int|
                            a <= i <= b && (#[trigger] self@[i]) is Some && call_ensures(
                                T::get_message,
                                (&drive.bridge(), self@[i]->0),
                                Err::<Vec<u8>, BridgeError>(e->Bridge_0),
                            );
                        assert(!drive.available());
                    }
                }
                return Err(e);
            },
        };
        let ghost buf0 = new_data@;
        let off: usize = start % m;
        let total: usize = new_data.len();
        // Copy the bytes from data into the old data at the proper position
        let mut i: usize = 0;
        while i < len
            invariant
                len == data@.len(),
                buf0.len() == total,
                new_data@.len() == total,
                i <= len,
                off + len <= buf0.len(),
                new_data@ == splice(buf0, off as int, data@.take(i as int)),
            decreases len - i,
        {
            proof {
                lemma_splice(buf0, off as int, data@.take(i as int));
            }
            new_data.set(off + i, data[i]);
            i += 1;
            assert(new_data@ =~= splice(buf0, off as int, data@.take(i as int)));
        }
        assert(data@.take(len as int) =~= data@);
        let ghost buf1 = new_data@;
        proof {
            lemma_splice(buf0, off as int, data@);
            if kept {
                assert(buf1 =~= wanted.subrange(a * mm, (b + 1) * mm)) by {
                    assert forall|p: int| 0 <= p < buf1.len() implies #[trigger] buf1[p]
                        == wanted.subrange(a * mm, (b + 1) * mm)[p] by {
                        assert(buf0[p] == before[a * mm + p]);
                    }
                }
            }
        }
        // Get the indexes of the chunks, which the new message ids go to
        let chunk_idxs = self.get_chunk_indexes::<T>(start, len);
        let mut k: usize = 0;
        let mut pos: usize = 0;
        let ghost mut pieces: Seq<Seq<u8>> = Seq::empty();
        let ghost mut ids: Seq<u64> = Seq::empty();
        while k < chunk_idxs.len()
            invariant
                m == T::MAX_FILE_SIZE,
                mm == m,
                m > 0,
                a == first_chunk(start as int, mm),
                b == last_chunk(start as int, len as int, mm),
                n == b - a + 1,
                0 <= a <= b < old_table.len(),
                old_table.len() <= usize::MAX,
                chunk_idxs@ == Seq::new(n as nat, |i: int| (a + i) as usize),
                buf1 == new_data@,
                buf1.len() == n * mm,
                buf1.len() == total,
                old_table == old(self)@,
                old_msgs == old(drive).messages(),
                cs0 == chunk_contents(old_table, old_msgs, mm),
                before == cs0.flatten(),
                wanted == splice(before, start as int, data@),
                kept == tracks(old_table, old_msgs, mm),
                saves == old(self).saves(),
                len == data@.len(),
                0 <= a * mm,
                (b + 1) * mm <= wanted.len(),
                n * mm == (b + 1) * mm - a * mm,
                kept ==> buf1 == wanted.subrange(a * mm, (b + 1) * mm),
                k <= chunk_idxs@.len(),
                pos == k * mm,
                self@.len() == old_table.len(),
                self.saves() == saves,
                forall|i: int|
                    0 <= i < old_table.len() && !(a <= i < a + k) ==> #[trigger] self@[i]
                        == old_table[i],
                pieces.len() == k,
                ids.len() == k,
                uniform(pieces, mm),
                pieces.flatten() == buf1.take(pos as int),
                forall|j: int|
                    0 <= j < k ==> {
                        &&& #[trigger] self@[a + j] == Some(ids[j])
                        &&& drive.messages().contains_key(ids[j])
                        &&& drive.messages()[ids[j]] == pieces[j]
                        &&& !old_msgs.contains_key(ids[j])
                    },
                kept ==> forall|j: int|
                    0 <= j < k ==> #[trigger] pieces[j] == wanted.subrange(
                        (a + j) * mm,
                        (a + j) * mm + mm,
                    ),
                old_msgs.submap_of(drive.messages()),
                drive.available() == old(drive).available(),
            decreases chunk_idxs@.len() - k,
        {
            proof {
                vstd::arithmetic::mul::lemma_mul_inequality(k + 1, n, mm as int);
                vstd::arithmetic::mul::lemma_mul_is_distributive_add_other_way(mm as int, k as int, 1);
                vstd::arithmetic::mul::lemma_mul_is_distributive_add_other_way(mm as int, a, k as int);
            }
            let chunk = slice_subrange(new_data.as_slice(), pos, pos + m);
            proof {
                lemma_chunks_single(chunk@, mm);
            }
            let ghost msgs_before = drive.messages();
            let ghost table_before = self@;
            // Upload the chunk and get the message id(s)
            let message_ids = match drive.upload_bytes(chunk) {
                Ok(v) => v,
                Err(e) => {
                    proof {
                        assert forall|j: int| 0 <= j < k implies {
                            &&& #[trigger] self@[a + j] == Some(ids[j])
                            &&& drive.messages().contains_key(ids[j])
                            &&& drive.messages()[ids[j]] == pieces[j]
                        } by {
                            assert(table_before[a + j] == Some(ids[j]));
                            assert(msgs_before.contains_key(ids[j]));
                            assert(drive.messages().dom().contains(ids[j]));
                        }
                        self.lemma_partial_write(
                            old_table, old_msgs, drive.messages(), pieces, ids, mm, a, b,
                            k as int, wanted, kept,
                        );
                        assert(replaced_prefix(
                            old_table,
                            self@,
                            old_msgs,
                            drive.messages(),
                            mm,
                            a,
                            b,
                            k as int,
                        )) by {
                            assert forall|i: int| a <= i < a + k implies (#[trigger] self@[i] matches Some(
                                id,
                            ) && !old_msgs.contains_key(id) && drive.messages().contains_key(id)
                                && drive.messages()[id].len() == mm) by {
                                let j = i - a;
                                assert(self@[a + j] == Some(ids[j]));
                                assert(pieces[j].len() == mm);
                                assert(table_before[a + j] == Some(ids[j]));
                                assert(msgs_before.contains_key(ids[j]));
                                assert(drive.messages().dom().contains(ids[j]));
                            }
                        }
                    }
                    return Err(e);
                },
            };
            // A chunk of MAX_FILE_SIZE bytes is stored in a single message
            let message_id: u64 = message_ids[0];
            self.chunk_table.set(chunk_idxs[k], Some(message_id));
            proof {
                assert(self@[a + k] == Some(message_id));
                assert(drive.messages().contains_key(message_id));
                assert(drive.messages()[message_id] == chunk@);
                assert(!msgs_before.contains_key(message_id));
                assert(!old_msgs.contains_key(message_id));
                pieces.lemma_flatten_push(chunk@);
                assert(buf1.take(pos as int) + chunk@ =~= buf1.take(pos + mm));
                if kept {
                    assert((a + k) * mm == a * mm + pos);
                    assert forall|q: int| 0 <= q < mm implies #[trigger] chunk@[q]
                        == wanted.subrange((a + k) * mm, (a + k) * mm + mm)[q] by {
                        assert(chunk@[q] == buf1[pos + q]);
                        assert(buf1[pos + q] == wanted[a * mm + pos + q]);
                    }
                    assert(chunk@ =~= wanted.subrange((a + k) * mm, (a + k) * mm + mm));
                }
                pieces = pieces.push(chunk@);
                ids = ids.push(message_id);
                assert forall|i: int| 0 <= i < pieces.len() implies #[trigger] pieces[i].len()
                    == mm by {
                    if i < pieces.len() - 1 {
                        assert(pieces[i] == pieces.drop_last()[i]);
                    }
                }
                assert forall|j: int| 0 <= j < k + 1 implies {
                    &&& #[trigger] self@[a + j] == Some(ids[j])
                    &&& drive.messages().contains_key(ids[j])
                    &&& drive.messages()[ids[j]] == pieces[j]
                    &&& !old_msgs.contains_key(ids[j])
                } by {
                    if j < k {
                        assert(table_before[a + j] == Some(ids[j]));
                        assert(msgs_before.contains_key(ids[j]));
                        assert(drive.messages().dom().contains(ids[j]));
                    } else {
                        assert(ids[j] == message_ids@[0]);
                        assert(!msgs_before.contains_key(message_ids@[0]));
                        if old_msgs.contains_key(ids[j]) {
                            assert(msgs_before.dom().contains(ids[j]));
                        }
                    }
                }
            }
            k += 1;
            pos += m;
        }
        proof {
            self.lemma_partial_write(
                old_table, old_msgs, drive.messages(), pieces, ids, mm, a, b, n, wanted, kept,
            );
            let cs1 = chunk_contents(self@, drive.messages(), mm);
            let after = cs1.flatten();
            lemma_contents_uniform(self@, drive.messages(), mm);
            assert(buf1.take(pos as int) =~= buf1);
            assert(cs1.subrange(a, a + n) =~= pieces) by {
                assert forall|j: int| 0 <= j < n implies #[trigger] cs1.subrange(a, a + n)[j]
                    == pieces[j] by {
                    lemma_fit_to(pieces[j], mm);
                    assert(self@[a + j] == Some(ids[j]));
                }
            }
            lemma_uniform_window(cs1, mm, a, n);
            assert(after.subrange(a * mm, (b + 1) * mm) == buf1);
            assert(after.subrange(start as int, start + len) =~= data@) by {
                assert forall|p: int| 0 <= p < len implies #[trigger] after.subrange(
                    start as int,
                    start + len,
                )[p] == data@[p] by {
                    assert(buf1[off + p] == data@[p]);
                    assert(after[a * mm + off + p] == buf1[off + p]);
                }
            }
            if kept {
                lemma_replace_window(cs0, cs1, pieces, mm, a, n);
                assert(after =~= wanted);
            }
            assert forall|i: int| a <= i <= b implies (#[trigger] self@[i] matches Some(id) && {
                &&& !old_msgs.contains_key(id)
                &&& drive.messages().contains_key(id)
                &&& drive.messages()[id] == after.subrange(i * mm, i * mm + mm)
            }) by {
                let j = i - a;
                assert(self@[a + j] == Some(ids[j]));
                assert(cs1.subrange(a, a + n)[j] == pieces[j]);
                lemma_uniform_window(cs1, mm, i, 1);
                assert(cs1.subrange(i, i + 1) =~= seq![cs1[i]]);
                seq![cs1[i]].lemma_flatten_singleton();
            }
            assert(tracks_within(self@, drive.messages(), mm, a, b)) by {
                assert forall|i: int| a <= i <= b && 0 <= i < self@.len() implies (
                #[trigger] self@[i] matches Some(id) ==> drive.messages().contains_key(id)
                    && drive.messages()[id].len() <= mm) by {
                    let j = i - a;
                    assert(self@[a + j] == Some(ids[j]));
                    assert(pieces[j].len() == mm);
                }
            }
        }
        Ok(())
    }

    /// What a write leaves behind after `k` of the chunks `a ..= b` were
    /// uploaded: every chunk keeps its content or holds the written one, and
    /// the table names held messages only.
    proof fn lemma_partial_write(
        &self,
        old_table: Seq<Option<u64>>,
        old_msgs: Map<u64, Seq<u8>>,
        msgs: Map<u64, Seq<u8>>,
        pieces: Seq<Seq<u8>>,
        ids: Seq<u64>,
        m: nat,
        a: int,
        b: int,
        k: int,
        wanted: Seq<u8>,
        kept: bool,
    )
        requires
            m > 0,
            0 <= a <= b < old_table.len(),
            0 <= k <= b - a + 1,
            self@.len() == old_table.len(),
            old_msgs.submap_of(msgs),
            kept == tracks(old_table, old_msgs, m),
            forall|i: int|
                0 <= i < old_table.len() && !(a <= i < a + k) ==> #[trigger] self@[i]
                    == old_table[i],
            pieces.len() == k,
            ids.len() == k,
            uniform(pieces, m),
            forall|j: int|
                0 <= j < k ==> {
                    &&& #[trigger] self@[a + j] == Some(ids[j])
                    &&& msgs.contains_key(ids[j])
                    &&& msgs[ids[j]] == pieces[j]
                },
            kept ==> forall|j: int|
                0 <= j < k ==> #[trigger] pieces[j] == wanted.subrange((a + j) * m, (a + j) * m + m),
        ensures
            kept ==> tracks(self@, msgs, m),
            forall|i: int| 0 <= i < old_table.len() && !(a <= i <= b) ==> #[trigger] self@[i] == old_table[i],
            kept ==> forall|i: int|
                0 <= i < old_table.len() && !(a <= i < a + k) ==> #[trigger] chunk_contents(
                    self@,
                    msgs,
                    m,
                )[i] == chunk_contents(old_table, old_msgs, m)[i],
            kept ==> forall|i: int|
                a <= i <= b ==> {
                    ||| #[trigger] chunk_contents(self@, msgs, m)[i] == chunk_contents(
                        old_table,
                        old_msgs,
                        m,
                    )[i]
                    ||| chunk_contents(self@, msgs, m)[i] == wanted.subrange(i * m, i * m + m)
                },
    {
        if kept {
            assert forall|i: int| 0 <= i < self@.len() implies (#[trigger] self@[i] matches Some(id)
                ==> msgs.contains_key(id) && msgs[id].len() <= m) by {
                if a <= i < a + k {
                    assert(self@[a + (i - a)] == Some(ids[i - a]));
                    assert(pieces[i - a].len() == m);
                } else {
                    assert(self@[i] == old_table[i]);
                    if let Some(id) = old_table[i] {
                        assert(old_msgs.contains_key(id));
                        assert(msgs.dom().contains(id));
                    }
                }
            }
            assert forall|i: int|
                0 <= i < old_table.len() && !(a <= i < a + k) implies #[trigger] chunk_contents(
                self@,
                msgs,
                m,
            )[i] == chunk_contents(old_table, old_msgs, m)[i] by {
                assert(self@[i] == old_table[i]);
                if let Some(id) = old_table[i] {
                    assert(old_msgs.contains_key(id));
                    assert(msgs.dom().contains(id));
                }
            }
            assert forall|i: int| a <= i <= b implies {
                ||| #[trigger] chunk_contents(self@, msgs, m)[i] == chunk_contents(
                    old_table,
                    old_msgs,
                    m,
                )[i]
                ||| chunk_contents(self@, msgs, m)[i] == wanted.subrange(i * m, i * m + m)
            } by {
                if i < a + k {
                    assert(self@[a + (i - a)] == Some(ids[i - a]));
                    assert(pieces[i - a].len() == m);
                    lemma_fit_to(pieces[i - a], m);
                    assert(pieces[i - a] == wanted.subrange((a + (i - a)) * m, (a + (i - a)) * m + m));
                } else {
                    assert(self@[i] == old_table[i]);
                    if let Some(id) = old_table[i] {
                        assert(old_msgs.contains_key(id));
                        assert(msgs.dom().contains(id));
                    }
                }
            }
        }
    }
}

} // verus!
