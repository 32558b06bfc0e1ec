//! Virtual reader spanning multi-volume archives (.alz, .a00, .a01, ...).
use crate::error::{unexpected_eof, AlzError, AlzResult, IoError, IoKind};
use crate::text;
use vstd::prelude::*;
use vstd::string::*;
use vstd::utf8::*;

verus! {

/// How many volumes an archive may have.
pub const MAX_VOLUMES: usize = 1000;

/// Framing at the front of every volume but the first.
pub const VOLUME_HEADER_SIZE: u64 = 8;

/// Framing at the end of every volume but the last.
pub const VOLUME_TRAILER_SIZE: u64 = 16;

/// Where a seek goes.
#[derive(Debug, Clone, Copy)]
pub enum SeekFrom {
    /// An offset from the start of the stream.
    Start(u64),
    /// A distance from the current position.
    Current(i64),
    /// A distance from the end of the stream.
    End(i64),
}

/// The model of a reader: the joined data of all volumes, how much of it is
/// surely data, the position in it, and the 16-byte tail of the first volume.
pub struct ReaderView {
    pub stream: Seq<u8>,
    pub solid: nat,
    pub pos: nat,
    pub tail: Seq<u8>,
}

impl ReaderView {
    /// How many bytes there are from the position on.
    pub open spec fn remaining(self) -> nat {
        if self.pos < self.stream.len() {
            (self.stream.len() - self.pos) as nat
        } else {
            0
        }
    }

    /// The next bytes: `n` of them, or what remains where that is less.
    pub open spec fn next(self, n: nat) -> Seq<u8> {
        if self.remaining() == 0 {
            Seq::empty()
        } else if n <= self.remaining() {
            self.stream.subrange(self.pos as int, (self.pos + n) as int)
        } else {
            self.stream.skip(self.pos as int)
        }
    }

    /// The same stream at another position.
    pub open spec fn at(self, pos: nat) -> ReaderView {
        ReaderView { pos, ..self }
    }

    /// Where a seek from here goes, as a number that may lie outside what a
    /// position can be.
    pub open spec fn target(self, to: SeekFrom) -> int {
        match to {
            SeekFrom::Start(p) => p as int,
            SeekFrom::Current(delta) => self.pos + delta,
            SeekFrom::End(delta) => self.stream.len() + delta,
        }
    }
}

/// The name of volume number `index` of the archive at `path`: the path
/// itself, then the path with its last three bytes replaced by a00, a01, ..
/// a99, b00 and so on. There is none past the highest volume number, nor
/// where the path is too short or the three bytes cut a character.
pub open spec fn volume_name(path: Seq<char>, index: nat) -> Option<Seq<char>> {
    let bytes = encode_utf8(path);
    if index >= MAX_VOLUMES {
        None
    } else if index == 0 {
        Some(path)
    } else if bytes.len() >= 4 && is_char_boundary(bytes, bytes.len() - 3) {
        Some(
            decode_utf8(bytes.take(bytes.len() - 3)).push("abcdefghij"@[(index - 1) / 100])
                + text::zero_padded(((index - 1) % 100) as nat, 2),
        )
    } else {
        None
    }
}

/// The contents of a set of volumes.
pub open spec fn contents(volumes: Seq<Vec<u8>>) -> Seq<Seq<u8>> {
    Seq::new(volumes.len(), |i: int| volumes[i]@)
}

/// The framing in front of the data of volume `i`.
pub open spec fn header_size(i: int) -> nat {
    if i == 0 {
        0
    } else {
        VOLUME_HEADER_SIZE as nat
    }
}

/// The framing behind the data of volume `i` out of `count`.
pub open spec fn trailer_size(i: int, count: nat) -> nat {
    if i == count - 1 {
        0
    } else {
        VOLUME_TRAILER_SIZE as nat
    }
}

/// Every volume is large enough to hold its own framing.
pub open spec fn framing_fits(parts: Seq<Seq<u8>>) -> bool {
    forall|i: int|
        0 <= i < parts.len() ==> header_size(i) + trailer_size(i, parts.len())
            <= #[trigger] parts[i].len()
}

/// The data of volume `i`, between its framing.
pub open spec fn payload(parts: Seq<Seq<u8>>, i: int) -> Seq<u8> {
    parts[i].subrange(header_size(i) as int, parts[i].len() - trailer_size(i, parts.len()))
}

/// The data of the first `count` volumes, joined.
pub open spec fn joined(parts: Seq<Seq<u8>>, count: nat) -> Seq<u8>
    decreases count,
{
    if count == 0 {
        Seq::empty()
    } else {
        joined(parts, (count - 1) as nat) + payload(parts, count - 1)
    }
}

/// How many bytes the first `count` volumes hold, framing and all.
pub open spec fn total_bytes(parts: Seq<Seq<u8>>, count: nat) -> nat
    decreases count,
{
    if count == 0 {
        0
    } else {
        total_bytes(parts, (count - 1) as nat) + parts[count - 1].len()
    }
}

/// How much of the data of a set of volumes is surely data. The last volume
/// that is there need not be the last of the set, and then its last 16 bytes
/// are a trailer.
pub open spec fn solid_part(total: nat) -> nat {
    if total >= VOLUME_TRAILER_SIZE {
        (total - VOLUME_TRAILER_SIZE) as nat
    } else {
        0
    }
}

/// The last 16 bytes of the first volume; zeros where it has fewer bytes.
pub open spec fn tail_of(first: Seq<u8>) -> Seq<u8> {
    if first.len() >= 16 {
        first.skip(first.len() - 16)
    } else {
        Seq::new(16, |i: int| 0u8)
    }
}

struct Volume {
    data: Vec<u8>,
    header_size: u64,
    tail_size: u64,
}

impl Volume {
    spec fn framing_fits(self) -> bool {
        self.header_size + self.tail_size <= self.data@.len()
    }

    spec fn payload(self) -> Seq<u8> {
        self.data@.subrange(self.header_size as int, self.data@.len() - self.tail_size)
    }

    fn data_size(&self) -> (n: u64)
        ensures
            self.framing_fits() ==> n == self.payload().len(),
            !self.framing_fits() ==> n == 0,
            self.framing_fits() ==> self.header_size + n <= u64::MAX,
    {
        // Saturating: a corrupt/truncated volume smaller than its framing
        // must not underflow.
        (self.data.len() as u64).saturating_sub(self.header_size).saturating_sub(self.tail_size)
    }
}

spec fn joined_payloads(volumes: Seq<Volume>, count: int) -> Seq<u8>
    decreases count,
{
    if count <= 0 {
        Seq::empty()
    } else {
        joined_payloads(volumes, count - 1) + volumes[count - 1].payload()
    }
}

/// The payload of one volume lies in the joined stream behind those of the
/// volumes before it.
proof fn lemma_payload_place(volumes: Seq<Volume>, i: int, count: int)
    requires
        0 <= i < count <= volumes.len(),
    ensures
        ({
            let start = joined_payloads(volumes, i).len();
            let end = joined_payloads(volumes, i + 1).len();
            &&& end == start + volumes[i].payload().len()
            &&& end <= joined_payloads(volumes, count).len()
            &&& joined_payloads(volumes, count).subrange(start as int, end as int)
                == volumes[i].payload()
        }),
    decreases count,
{
    let start = joined_payloads(volumes, i).len() as int;
    let end = joined_payloads(volumes, i + 1).len() as int;
    if i == count - 1 {
        assert(joined_payloads(volumes, count).subrange(start, end) =~= volumes[i].payload());
    } else {
        lemma_payload_place(volumes, i, count - 1);
        let whole = joined_payloads(volumes, count);
        let less = joined_payloads(volumes, count - 1);
        assert(whole.subrange(start, end) =~= less.subrange(start, end));
    }
}

/// Virtual reader over multi-volume ALZ archives (.alz, .a00, .a01, ...).
/// Transparently handles seeking and reading across volume boundaries.
pub struct MultiVolumeReader {
    volumes: Vec<Volume>,
    cur_volume: usize,
    // Position in the bytes of the current volume.
    offset: u64,
    virtual_pos: u64,
    // How much of the joined data is surely data.
    solid: u64,
    tail: [u8; 16],
}

impl View for MultiVolumeReader {
    type V = ReaderView;

    closed spec fn view(&self) -> ReaderView {
        ReaderView {
            stream: joined_payloads(self.volumes@, self.volumes@.len() as int),
            solid: self.solid as nat,
            pos: self.virtual_pos as nat,
            tail: self.tail@,
        }
    }
}

impl MultiVolumeReader {
    /// The volumes hold their framing, the joined data fits into memory, and
    /// the place in the current volume is the place in the joined data.
    pub closed spec fn wf(self) -> bool {
        &&& self.volumes_wf()
        &&& self.placed()
    }

    spec fn volumes_wf(self) -> bool {
        &&& self.volumes@.len() >= 1
        &&& forall|i: int|
            0 <= i < self.volumes@.len() ==> (#[trigger] self.volumes@[i]).framing_fits()
        &&& self@.stream.len() <= usize::MAX
    }

    spec fn placed(self) -> bool {
        let total = self@.stream.len();
        let place = if self.virtual_pos < total {
            self.virtual_pos as nat
        } else {
            total
        };
        if self.cur_volume < self.volumes@.len() {
            let vol = self.volumes@[self.cur_volume as int];
            &&& vol.header_size <= self.offset <= vol.data@.len() - vol.tail_size
            &&& joined_payloads(self.volumes@, self.cur_volume as int).len() + self.offset
                - vol.header_size == place
        } else {
            self.virtual_pos >= total
        }
    }

    /// Open a multi-volume archive whose volumes were found in `volumes`, in
    /// order: the file at `path` itself, then .a00, .a01, ...
    #[verifier::rlimit(40)]
    pub fn open(path: &str, volumes: Vec<Vec<u8>>) -> (r: AlzResult<Self>)
        requires
            total_bytes(contents(volumes@), volumes@.len()) <= usize::MAX,
        ensures
            ({
                let parts = contents(volumes@);
                match r {
                    Ok(reader) => {
                        &&& reader.wf()
                        &&& parts.len() > 0
                        &&& framing_fits(parts)
                        &&& reader@ == (ReaderView {
                            stream: joined(parts, parts.len()),
                            solid: solid_part(joined(parts, parts.len()).len()),
                            pos: 0,
                            tail: tail_of(parts[0]),
                        })
                    },
                    Err(e) => if parts.len() == 0 {
                        e@ == crate::error::ErrorView::CantOpenFile(
                            crate::error::IoErrorView {
                                kind: IoKind::NotFound,
                                message: "can't open: "@ + path@,
                            },
                        )
                    } else {
                        &&& !framing_fits(parts)
                        &&& e@ == crate::error::ErrorView::CorruptedFile
                    },
                }
            }),
    {
        let count: usize = volumes.len();
        let ghost parts = contents(volumes@);
        if count == 0 {
            let mut message: String = String::from_str("can't open: ");
            message.append(path);
            return Err(AlzError::CantOpenFile(IoError { kind: IoKind::NotFound, message }));
        }
        let tail = file_tail(volumes[0].as_slice());
        assert(volumes@[0]@ == parts[0]);

        let mut rest = volumes;
        let mut framed: Vec<Volume> = Vec::new();
        let mut i: usize = count;
        // From the last volume to the first, taking each out of the list.
        while i > 0
            invariant
                i <= count,
                count == parts.len(),
                parts == contents(volumes@),
                rest@.len() == i,
                forall|j: int| 0 <= j < i ==> (#[trigger] rest@[j])@ == parts[j],
                framed@.len() == count - i,
                forall|j: int|
                    i <= j < count ==> {
                        let vol = #[trigger] framed@[count - 1 - j];
                        &&& vol.data@ == parts[j]
                        &&& vol.header_size == header_size(j)
                        &&& vol.tail_size == trailer_size(j, parts.len())
                        &&& vol.framing_fits()
                    },
            decreases i,
        {
            i = i - 1;
            let data = rest.pop().unwrap();
            assert(data@ == parts[i as int]);
            let header_size: u64 = if i == 0 {
                0
            } else {
                VOLUME_HEADER_SIZE
            };
            // The last volume has no tail.
            let tail_size: u64 = if i == count - 1 {
                0
            } else {
                VOLUME_TRAILER_SIZE
            };
            // Fail fast on a corrupt set: every volume must be large enough to
            // hold its own framing (header + trailer).
            if (data.len() as u64) < header_size + tail_size {
                assert(!framing_fits(parts)) by {
                    assert(parts[i as int].len() < crate::multivolume::header_size(i as int)
                        + trailer_size(i as int, parts.len()));
                }
                return Err(AlzError::CorruptedFile);
            }
            let ghost before = framed@;
            framed.push(Volume { data, header_size, tail_size });
            assert forall|j: int| i <= j < count implies {
                let vol = #[trigger] framed@[count - 1 - j];
                &&& vol.data@ == parts[j]
                &&& vol.header_size == crate::multivolume::header_size(j)
                &&& vol.tail_size == trailer_size(j, parts.len())
                &&& vol.framing_fits()
            } by {
                if j > i {
                    assert(framed@[count - 1 - j] == before[count - 1 - j]);
                }
            }
        }
        let volumes = in_reverse(framed);
        proof {
            assert forall|j: int| 0 <= j < count implies {
                let vol = #[trigger] volumes@[j];
                &&& vol.data@ == parts[j]
                &&& vol.header_size == header_size(j)
                &&& vol.tail_size == trailer_size(j, parts.len())
                &&& vol.framing_fits()
            } by {
                assert(volumes@[j] == framed@[count - 1 - j]);
            }
            assert forall|j: int| 0 <= j < parts.len() implies header_size(j) + trailer_size(
                j,
                parts.len(),
            ) <= #[trigger] parts[j].len() by {
                assert(volumes@[j].framing_fits());
            }
            lemma_joined_agrees(volumes@, parts, count as nat);
        }
        let mut reader = MultiVolumeReader {
            volumes,
            cur_volume: 0,
            offset: 0,
            virtual_pos: 0,
            solid: 0,
            tail,
        };
        // Position at the data start of volume 0.
        reader.seek_to_virtual(0);
        reader.solid = reader.total_size().saturating_sub(VOLUME_TRAILER_SIZE);
        Ok(reader)
    }

    /// Create a single-volume reader from in-memory data (e.g. stdin).
    pub fn from_bytes(data: Vec<u8>) -> (r: Self)
        ensures
            r.wf(),
            r@ == (ReaderView {
                stream: data@,
                solid: data@.len(),
                pos: 0,
                tail: tail_of(data@),
            }),
    {
        let tail = file_tail(data.as_slice());
        let mut volumes: Vec<Volume> = Vec::new();
        let ghost whole = data@;
        let len: usize = data.len();
        assert(whole.len() == len);
        volumes.push(Volume { data, header_size: 0, tail_size: 0 });
        proof {
            let v = volumes@;
            assert(joined_payloads(v, 1) == joined_payloads(v, 0) + v[0].payload());
            assert(joined_payloads(v, 1) =~= whole);
            assert(joined_payloads(v, 0).len() == 0);
        }
        MultiVolumeReader {
            volumes,
            cur_volume: 0,
            offset: 0,
            virtual_pos: 0,
            solid: len as u64,
            tail,
        }
    }

    /// The 16-byte file tail (endInfos) from the first volume.
    pub fn tail(&self) -> (t: &[u8; 16])
        ensures
            t@ == self@.tail,
    {
        &self.tail
    }

    /// How much of the joined data is surely data.
    pub fn solid_size(&self) -> (n: u64)
        ensures
            n == self@.solid,
    {
        self.solid
    }

    /// The current position in the joined data.
    pub fn stream_position(&self) -> (pos: u64)
        ensures
            pos == self@.pos,
    {
        self.virtual_pos
    }

    /// Total virtual data size across all volumes.
    pub fn total_size(&self) -> (n: u64)
        requires
            self.wf(),
        ensures
            n == self@.stream.len(),
    {
        let mut sum: u64 = 0;
        let mut i: usize = 0;
        while i < self.volumes.len()
            invariant
                self.volumes_wf(),
                i <= self.volumes@.len(),
                sum == joined_payloads(self.volumes@, i as int).len(),
            decreases self.volumes@.len() - i,
        {
            proof {
                lemma_payload_place(self.volumes@, i as int, self.volumes@.len() as int);
            }
            sum = sum + self.volumes[i].data_size();
            i = i + 1;
        }
        sum
    }

    fn seek_to_virtual(&mut self, target: u64)
        requires
            old(self).volumes_wf(),
        ensures
            final(self).wf(),
            final(self)@ == old(self)@.at(target as nat),
    {
        self.virtual_pos = target;
        let mut remain: u64 = target;
        let ghost before = *self;
        let mut i: usize = 0;
        while i < self.volumes.len()
            invariant
                *self == before,
                before.volumes_wf(),
                before.virtual_pos == target,
                before@ == old(self)@.at(target as nat),
                i <= self.volumes@.len(),
                remain + joined_payloads(self.volumes@, i as int).len() == target,
                i > 0 ==> remain > 0,
            decreases self.volumes@.len() - i,
        {
            let data_size: u64 = self.volumes[i].data_size();
            proof {
                assert(before.volumes@[i as int].framing_fits());
                lemma_payload_place(self.volumes@, i as int, self.volumes@.len() as int);
            }
            if remain <= data_size {
                self.offset = remain + self.volumes[i].header_size;
                self.cur_volume = i;
                return;
            }
            remain = remain - data_size;
            i = i + 1;
        }
        // Past end of available volumes -- park at EOF so reads return 0.
        let last: usize = self.volumes.len() - 1;
        proof {
            lemma_payload_place(self.volumes@, last as int, self.volumes@.len() as int);
        }
        self.offset = self.volumes[last].data.len() as u64 - self.volumes[last].tail_size;
        self.cur_volume = last;
    }

    /// Read the next bytes into `buf`: as many as it holds, or what is left.
    /// Returns how many there were.
    #[verifier::rlimit(40)]
    pub fn read(&mut self, buf: &mut [u8]) -> (r: Result<usize, IoError>)
        requires
            old(self).wf(),
        ensures
            final(self).wf(),
            r is Ok,
            ({
                let next = old(self)@.next(old(buf)@.len());
                &&& r->Ok_0 == next.len()
                &&& final(buf)@ == next + old(buf)@.skip(next.len() as int)
                &&& final(self)@ == old(self)@.at(old(self)@.pos + next.len())
            }),
            ({
                let (start, end) = (old(self)@.pos, final(self)@.pos);
                let stream = old(self)@.stream;
                &&& final(self)@.stream == stream
                &&& r->Ok_0 == end - start
                // As many as fit, or as there are.
                &&& r->Ok_0 == old(buf)@.len() || end == stream.len() && r->Ok_0
                    < old(buf)@.len() || start >= stream.len() && r->Ok_0 == 0
                &&& end <= stream.len() || r->Ok_0 == 0
                &&& forall|i: int| 0 <= i < r->Ok_0 ==> final(buf)@[i] == stream[start + i]
                &&& final(buf)@.len() == old(buf)@.len()
            }),
    {
        let ghost start = self@;
        let ghost total = start.stream.len();
        let ghost blank = buf@;
        let mut total_read: usize = 0;
        while total_read < buf.len() && self.cur_volume < self.volumes.len()
            invariant
                self.wf(),
                self@.stream == start.stream,
                self@.tail == start.tail,
                self@.solid == start.solid,
                self@.pos == start.pos + total_read,
                total == start.stream.len(),
                buf@.len() == blank.len(),
                total_read <= buf@.len(),
                total_read > 0 ==> start.pos + total_read <= total,
                total_read == 0 ==> buf@ == blank,
                total_read > 0 ==> buf@ == start.stream.subrange(
                    start.pos as int,
                    start.pos + total_read,
                ) + blank.skip(total_read as int),
            decreases self.volumes@.len() - self.cur_volume, buf@.len() - total_read,
        {
            let ghost volumes = self.volumes@;
            let ghost k = self.cur_volume as int;
            proof {
                lemma_payload_place(volumes, k, volumes.len() as int);
            }
            let vol = &self.volumes[self.cur_volume];
            let data_end: u64 = vol.data.len() as u64 - vol.tail_size;
            let avail: usize = (data_end - self.offset) as usize;

            if avail == 0 {
                // Move to next volume.
                self.cur_volume = self.cur_volume + 1;
                if self.cur_volume < self.volumes.len() {
                    self.offset = self.volumes[self.cur_volume].header_size;
                    proof {
                        lemma_payload_place(volumes, k + 1, volumes.len() as int);
                    }
                }
                continue;
            }
            let wanted: usize = buf.len() - total_read;
            let to_read: usize = if avail < wanted {
                avail
            } else {
                wanted
            };
            let from: usize = self.offset as usize;
            let ghost before = buf@;
            copy_into(
                buf,
                total_read,
                vstd::slice::slice_subrange(vol.data.as_slice(), from, from + to_read),
            );
            proof {
                let p = start.pos + total_read;
                let piece = volumes[k].data@.subrange(from as int, from + to_read);
                let base = joined_payloads(volumes, k).len();
                assert(p < total);
                assert(start.stream.subrange(p, p + to_read) =~= piece) by {
                    let place = start.stream.subrange(
                        base as int,
                        (base + volumes[k].payload().len()) as int,
                    );
                    assert(place == volumes[k].payload());
                    assert forall|j: int| 0 <= j < to_read implies start.stream[p + j]
                        == #[trigger] piece[j] by {
                        assert(place[p - base + j] == start.stream[p + j]);
                    }
                }
                assert(buf@ =~= start.stream.subrange(start.pos as int, p + to_read) + blank.skip(
                    total_read + to_read,
                ));
            }
            total_read = total_read + to_read;
            self.offset = self.offset + to_read as u64;
            self.virtual_pos = self.virtual_pos + to_read as u64;
        }
        assert(total_read == start.next(blank.len()).len());
        assert(buf@ =~= start.next(blank.len()) + blank.skip(total_read as int));
        Ok(total_read)
    }

    /// Read up to `limit` bytes.
    pub fn read_up_to(&mut self, limit: u64) -> (out: Vec<u8>)
        requires
            old(self).wf(),
        ensures
            final(self).wf(),
            out@ == old(self)@.next(limit as nat),
            out@.len() <= limit,
            old(self)@.pos + limit <= old(self)@.stream.len() ==> out@
                == old(self)@.stream.subrange(old(self)@.pos as int, old(self)@.pos + limit),
            old(self)@.pos <= old(self)@.stream.len() < old(self)@.pos + limit ==> out@
                == old(self)@.stream.skip(old(self)@.pos as int),
            final(self)@ == old(self)@.at(old(self)@.pos + out@.len()),
    {
        let total: u64 = self.total_size();
        let left: u64 = if self.virtual_pos < total {
            total - self.virtual_pos
        } else {
            0
        };
        let wanted: u64 = if left < limit {
            left
        } else {
            limit
        };
        let mut out: Vec<u8> = Vec::new();
        out.resize(wanted as usize, 0);
        let _ = self.read(out.as_mut_slice());
        out
    }

    /// Read exactly `n` bytes. Where there are fewer, they are consumed and
    /// the end of the data is the error.
    pub fn read_exact(&mut self, n: usize) -> (r: AlzResult<Vec<u8>>)
        requires
            old(self).wf(),
        ensures
            final(self).wf(),
            final(self)@ == old(self)@.at(old(self)@.pos + old(self)@.next(n as nat).len()),
            match r {
                Ok(bytes) => n <= old(self)@.remaining() && bytes@ == old(self)@.next(n as nat),
                Err(e) => n > old(self)@.remaining() && e@ == crate::error::eof_error(),
            },
            n > 0 ==> (r is Ok <==> old(self)@.pos + n <= old(self)@.stream.len()),
            r matches Ok(bytes) ==> bytes@.len() == n && (n > 0 ==> bytes@
                == old(self)@.stream.subrange(old(self)@.pos as int, old(self)@.pos + n)
                && final(self)@.pos == old(self)@.pos + n),
    {
        let out = self.read_up_to(n as u64);
        if out.len() < n {
            return Err(unexpected_eof());
        }
        Ok(out)
    }

    /// Move to another position. A position past the end is taken as it is:
    /// reads there return nothing.
    pub fn seek(&mut self, to: SeekFrom) -> (r: Result<u64, IoError>)
        requires
            old(self).wf(),
        ensures
            final(self).wf(),
            ({
                let target = old(self)@.target(to);
                match r {
                    Ok(p) => {
                        &&& p == target
                        &&& final(self)@ == old(self)@.at(target as nat)
                    },
                    Err(e) => {
                        &&& !(0 <= target <= u64::MAX)
                        &&& e@ == crate::error::seek_range_error()
                        &&& *final(self) == *old(self)
                    },
                }
            }),
            final(self)@.stream == old(self)@.stream,
            r matches Ok(p) ==> final(self)@.pos == p && p == (match to {
                SeekFrom::Start(p) => p as int,
                SeekFrom::Current(delta) => old(self)@.pos + delta,
                SeekFrom::End(delta) => old(self)@.stream.len() + delta,
            }),
    {
        let new_pos: Option<u64> = match to {
            SeekFrom::Start(p) => Some(p),
            SeekFrom::Current(delta) => self.virtual_pos.checked_add_signed(delta),
            SeekFrom::End(delta) => self.total_size().checked_add_signed(delta),
        };
        match new_pos {
            Some(p) => {
                self.seek_to_virtual(p);
                Ok(p)
            },
            None => Err(
                IoError {
                    kind: IoKind::InvalidInput,
                    message: String::from_str("seek position out of range"),
                },
            ),
        }
    }
}

/// The two ways to join volumes agree: over the volumes with their framing
/// noted down, and over their bytes.
proof fn lemma_joined_agrees(volumes: Seq<Volume>, parts: Seq<Seq<u8>>, count: nat)
    requires
        count <= volumes.len() == parts.len(),
        framing_fits(parts),
        forall|j: int|
            0 <= j < volumes.len() ==> {
                let vol = #[trigger] volumes[j];
                &&& vol.data@ == parts[j]
                &&& vol.header_size == header_size(j)
                &&& vol.tail_size == trailer_size(j, parts.len())
            },
    ensures
        joined_payloads(volumes, count as int) == joined(parts, count),
        joined(parts, count).len() <= total_bytes(parts, count),
    decreases count,
{
    if count > 0 {
        lemma_joined_agrees(volumes, parts, (count - 1) as nat);
        assert(volumes[count - 1].payload() == payload(parts, count - 1));
        assert(parts[count - 1].len() >= header_size(count - 1));
    }
}

/// The last 16 bytes of a file, or zeros where it has fewer.
fn file_tail(data: &[u8]) -> (tail: [u8; 16])
    ensures
        tail@ == tail_of(data@),
{
    let mut tail: [u8; 16] = [0u8;16];
    let len: usize = data.len();
    if len >= 16 {
        let from: usize = len - 16;
        let mut i: usize = 0;
        while i < 16
            invariant
                i <= 16,
                len == data@.len(),
                len >= 16,
                from == len - 16,
                forall|j: int| 0 <= j < i ==> tail@[j] == data@[from + j],
            decreases 16 - i,
        {
            tail[i] = data[from + i];
            i = i + 1;
        }
    }
    assert(tail@ =~= tail_of(data@));
    tail
}

fn in_reverse(volumes: Vec<Volume>) -> (r: Vec<Volume>)
    ensures
        r@ == volumes@.reverse(),
{
    let mut rest = volumes;
    let mut out: Vec<Volume> = Vec::new();
    let ghost all = rest@;
    while rest.len() > 0
        invariant
            rest@ == all.take(rest@.len() as int),
            rest@.len() <= all.len(),
            out@ == all.reverse().take(all.len() - rest@.len()),
        decreases rest@.len(),
    {
        let ghost before = rest@;
        let last = rest.pop().unwrap();
        out.push(last);
        assert(last == all[before.len() - 1]);
        assert(rest@ =~= all.take(rest@.len() as int));
        assert(out@ =~= all.reverse().take(all.len() - rest@.len()));
    }
    assert(all.reverse().take(all.len() as int) =~= all.reverse());
    out
}

/// Overwrite the bytes of `buf` from `at` on with `src`.
fn copy_into(buf: &mut [u8], at: usize, src: &[u8])
    requires
        at + src@.len() <= old(buf)@.len(),
    ensures
        final(buf)@ == old(buf)@.take(at as int) + src@ + old(buf)@.skip(at + src@.len()),
{
    let ghost before = buf@;
    let len: usize = buf.len();
    let mut i: usize = 0;
    while i < src.len()
        invariant
            i <= src@.len(),
            before.len() == len,
            at + src@.len() <= before.len(),
            buf@.len() == before.len(),
            forall|j: int|
                0 <= j < before.len() ==> #[trigger] buf@[j] == if at <= j < at + i {
                    src@[j - at]
                } else {
                    before[j]
                },
        decreases src@.len() - i,
    {
        buf[at + i] = src[i];
        i = i + 1;
    }
    assert(buf@ =~= before.take(at as int) + src@ + before.skip(at + src@.len()));
}

/// The name of volume number `index` of the archive at `path`, where it can
/// have one.
pub fn volume_path(path: &str, index: usize) -> (r: Option<String>)
    ensures
        match r {
            Some(s) => volume_name(path@, index as nat) == Some(s@),
            None => volume_name(path@, index as nat) is None,
        },
{
    if index >= MAX_VOLUMES {
        return None;
    }
    if index == 0 {
        return Some(String::from_str(path));
    }
    // Only a path whose last three bytes can be cut off between characters is
    // the base name of a set; any other is a single volume.
    let len: usize = path.as_bytes().len();
    if len < 4 || !path.is_char_boundary(len - 3) {
        return None;
    }
    let ghost bytes = encode_utf8(path@);
    let prefix = path.split_at(len - 3).0;
    let mut name: String = String::from_str(prefix);
    let letters = "abcdefghij";
    proof {
        reveal_strlit("abcdefghij");
        assert(bytes.subrange(0, len - 3) =~= bytes.take(len - 3));
        encode_utf8_decode_utf8(prefix@);
    }
    let hundred: usize = (index - 1) / 100;
    name.push(letters.get_char(hundred));
    text::push_number(&mut name, ((index - 1) % 100) as u64, 10, 2, '0');
    Some(name)
}

/// A set of one volume reads as that volume.
pub proof fn lemma_single_volume_is_whole(part: Seq<u8>)
    ensures
        framing_fits(seq![part]),
        joined(seq![part], 1) == part,
{
    let parts = seq![part];
    assert(joined(parts, 1) == joined(parts, 0) + payload(parts, 0));
    assert(joined(parts, 1) =~= part);
}

/// Whether a volume holds a piece of the data: with eight bytes in front,
/// unless it is the first, and sixteen behind, unless it is the last.
pub open spec fn holds_piece(part: Seq<u8>, piece: Seq<u8>, first: bool, last: bool) -> bool {
    exists|front: Seq<u8>, back: Seq<u8>|
        {
            &&& front.len() == if first {
                0nat
            } else {
                8
            }
            &&& back.len() == if last {
                0nat
            } else {
                16
            }
            &&& part == #[trigger] (front + piece + back)
        }
}

/// Splitting is transparent: however some data is cut into pieces, the volumes
/// that hold the pieces between their framing read as the data.
pub proof fn lemma_split_reads_as_whole(pieces: Seq<Seq<u8>>, parts: Seq<Seq<u8>>)
    requires
        pieces.len() == parts.len(),
        forall|i: int|
            0 <= i < parts.len() ==> holds_piece(
                #[trigger] parts[i],
                pieces[i],
                i == 0,
                i == parts.len() - 1,
            ),
    ensures
        framing_fits(parts),
        joined(parts, parts.len()) == pieces.flatten(),
{
    assert forall|i: int| 0 <= i < parts.len() implies {
        &&& header_size(i) + trailer_size(i, parts.len()) <= #[trigger] parts[i].len()
        &&& payload(parts, i) == pieces[i]
    } by {
        let part = parts[i];
        let piece = pieces[i];
        let (front, back) = choose|front: Seq<u8>, back: Seq<u8>|
            {
                &&& front.len() == if i == 0 {
                    0nat
                } else {
                    8
                }
                &&& back.len() == if i == parts.len() - 1 {
                    0nat
                } else {
                    16
                }
                &&& part == #[trigger] (front + piece + back)
            };
        assert(part.subrange(front.len() as int, part.len() - back.len()) =~= piece);
    }
    lemma_pieces_join(pieces, parts, parts.len());
    assert(pieces.take(parts.len() as int) =~= pieces);
    pieces.lemma_flatten_and_flatten_alt_are_equivalent();
}

proof fn lemma_pieces_join(pieces: Seq<Seq<u8>>, parts: Seq<Seq<u8>>, count: nat)
    requires
        pieces.len() == parts.len(),
        count <= parts.len(),
        forall|i: int|
            #![trigger parts[i]]
            0 <= i < parts.len() ==> payload(parts, i) == pieces[i],
    ensures
        joined(parts, count) == pieces.take(count as int).flatten_alt(),
    decreases count,
{
    let some = pieces.take(count as int);
    if count > 0 {
        lemma_pieces_join(pieces, parts, (count - 1) as nat);
        assert(some.drop_last() =~= pieces.take(count - 1));
        assert(parts[count - 1].len() >= 0);
    }
}

/// A set is refused exactly where some volume cannot hold its framing: eight
/// bytes in front, unless it is the first, and sixteen behind, unless it is
/// the last.
pub proof fn lemma_framing_is_checked(parts: Seq<Seq<u8>>)
    ensures
        framing_fits(parts) <==> forall|i: int|
            0 <= i < parts.len() ==> #[trigger] parts[i].len() >= (if i == 0 {
                0int
            } else {
                8
            }) + (if i == parts.len() - 1 {
                0int
            } else {
                16
            }),
{
    assert forall|i: int| 0 <= i < parts.len() implies header_size(i) + trailer_size(
        i,
        parts.len(),
    ) == (if i == 0 {
        0int
    } else {
        8
    }) + (if i == parts.len() - 1 {
        0int
    } else {
        16
    }) by {}
    if forall|i: int|
        0 <= i < parts.len() ==> #[trigger] parts[i].len() >= (if i == 0 {
            0int
        } else {
            8
        }) + (if i == parts.len() - 1 {
            0int
        } else {
            16
        }) {
        assert forall|i: int| 0 <= i < parts.len() implies header_size(i) + trailer_size(
            i,
            parts.len(),
        ) <= #[trigger] parts[i].len() by {}
    }
}

/// The tail is the last sixteen bytes, and zeros where there are not so many;
/// as much is not surely data of a set of volumes.
pub proof fn lemma_tail_and_solid_part(front: Seq<u8>, back: Seq<u8>)
    requires
        back.len() == 16,
    ensures
        tail_of(front + back) == back,
        front.len() < 16 ==> tail_of(front) == seq![
            0u8,
            0,
            0,
            0,
            0,
            0,
            0,
            0,
            0,
            0,
            0,
            0,
            0,
            0,
            0,
            0,
        ],
        solid_part((front + back).len()) == front.len(),
        front.len() < 16 ==> solid_part(front.len()) == 0,
{
    assert(tail_of(front + back) =~= back);
    if front.len() < 16 {
        assert(tail_of(front) =~= seq![0u8, 0, 0, 0, 0, 0, 0, 0, 0, 0, 0, 0, 0, 0, 0, 0]);
    }
}

/// Reading in two goes gives what one read of both would.
pub proof fn lemma_reads_join(reader: ReaderView, a: nat, b: nat)
    ensures
        ({
            let first = reader.next(a);
            first + reader.at(reader.pos + first.len()).next(b) == reader.next(a + b)
        }),
{
    let first = reader.next(a);
    assert(first + reader.at(reader.pos + first.len()).next(b) =~= reader.next(a + b));
}

/// What a seek went to is what the next read reads, wherever it was before.
pub proof fn lemma_seek_then_read(reader: ReaderView, p: u64, n: nat)
    requires
        p + n <= reader.stream.len(),
    ensures
        reader.at(reader.target(SeekFrom::Start(p)) as nat).next(n) == reader.stream.subrange(
            p as int,
            p + n,
        ),
{
    assert(reader.at(p as nat).next(n) =~= reader.stream.subrange(p as int, p + n));
}

/// No two volumes of a set behind the first have the same name.
pub proof fn lemma_volume_names_differ(path: Seq<char>, i: nat, j: nat)
    requires
        i >= 1,
        j >= 1,
        volume_name(path, i) is Some,
        volume_name(path, i) == volume_name(path, j),
    ensures
        i == j,
{
    reveal_strlit("abcdefghij");
    let letters = "abcdefghij"@;
    let bytes = encode_utf8(path);
    let prefix = decode_utf8(bytes.take(bytes.len() - 3));
    let p = prefix.len() as int;
    let a = volume_name(path, i)->Some_0;
    let b = volume_name(path, j)->Some_0;
    let m = ((i - 1) % 100) as nat;
    let n = ((j - 1) % 100) as nat;
    text::lemma_two_digits(m);
    text::lemma_two_digits(n);
    assert(a[p] == letters[(i - 1) / 100] && b[p] == letters[(j - 1) / 100]);
    assert(a[p + 1] == text::digit_char(m / 10) && b[p + 1] == text::digit_char(n / 10));
    assert(a[p + 2] == text::digit_char(m % 10) && b[p + 2] == text::digit_char(n % 10));
    text::lemma_digits_differ(m / 10, n / 10);
    text::lemma_digits_differ(m % 10, n % 10);
    let x = (i - 1) / 100;
    let y = (j - 1) / 100;
    assert(0 <= x < 10 && 0 <= y < 10);
    assert(letters =~= seq!['a', 'b', 'c', 'd', 'e', 'f', 'g', 'h', 'i', 'j']);
    assert(x == y);
}

/// The volumes of a set are named after the archive: the three characters of
/// the extension give way to a letter and two digits, a00 to a99, then b00,
/// and so on up to the thousandth volume.
pub proof fn lemma_volume_names(
    base: Seq<char>,
    extension: Seq<char>,
    letter: nat,
    tens: nat,
    ones: nat,
)
    requires
        base.len() > 0,
        extension.len() == 3,
        is_ascii_chars(extension),
        letter < 10,
        tens < 10,
        ones < 10,
    ensures
        volume_name(base + extension, 0) == Some(base + extension),
        ({
            let index = 1 + 100 * letter + 10 * tens + ones;
            let name = volume_name(base + extension, index);
            &&& index < 1000 ==> name is Some && name->Some_0.len() == base.len() + 3
            &&& index < 1000 ==> name->Some_0.take(base.len() as int) == base
            &&& index < 1000 ==> name->Some_0[base.len() as int] as u32 == 97 + letter
            &&& index < 1000 ==> name->Some_0[(base.len() + 1) as int] as u32 == 48 + tens
            &&& index < 1000 ==> name->Some_0[(base.len() + 2) as int] as u32 == 48 + ones
            &&& index >= 1000 ==> name is None
        }),
{
    reveal_strlit("abcdefghij");
    let path = base + extension;
    let index = 1 + 100 * letter + 10 * tens + ones;
    lemma_encode_concat(base, extension);
    is_ascii_chars_encode_utf8(extension);
    let front = encode_utf8(base);
    let bytes = encode_utf8(path);
    lemma_encoded_not_empty(base);
    assert(bytes.len() == front.len() + 3);
    assert(bytes.take(bytes.len() - 3) =~= front);
    encode_utf8_decode_utf8(base);
    encode_utf8_valid_utf8(path);
    encode_utf8_valid_utf8(base);
    lemma_boundary_between(base, extension);
    let n = (10 * tens + ones) as nat;
    assert((index - 1) % 100 == n && (index - 1) / 100 == letter);
    text::lemma_two_digits(n);
    text::lemma_digit_characters(tens);
    text::lemma_digit_characters(ones);
    assert(n / 10 == tens && n % 10 == ones);
    let letters = "abcdefghij"@;
    assert(letters =~= seq!['a', 'b', 'c', 'd', 'e', 'f', 'g', 'h', 'i', 'j']);
    assert(letters[letter as int] as u32 == 97 + letter);
    if index < 1000 {
        let name = volume_name(path, index)->Some_0;
        assert(name.take(base.len() as int) =~= base);
    }
}

/// The encoding of a text is that of its parts.
proof fn lemma_encode_concat(a: Seq<char>, b: Seq<char>)
    ensures
        encode_utf8(a + b) == encode_utf8(a) + encode_utf8(b),
    decreases a.len(),
{
    if a.len() == 0 {
        assert(a + b =~= b);
        assert(encode_utf8(a) + encode_utf8(b) =~= encode_utf8(b));
    } else {
        lemma_encode_concat(a.drop_first(), b);
        assert((a + b).drop_first() =~= a.drop_first() + b);
        assert(encode_utf8(a + b) =~= encode_utf8(a) + encode_utf8(b));
    }
}

proof fn lemma_encoded_not_empty(a: Seq<char>)
    requires
        a.len() > 0,
    ensures
        encode_utf8(a).len() > 0,
{
    encode_utf8_first_scalar(a);
}

/// Between two texts is a boundary of characters.
proof fn lemma_boundary_between(a: Seq<char>, b: Seq<char>)
    requires
        b.len() > 0,
        is_ascii_chars(b),
    ensures
        is_char_boundary(encode_utf8(a + b), encode_utf8(a).len() as int),
{
    let bytes = encode_utf8(a + b);
    let at = encode_utf8(a).len() as int;
    lemma_encode_concat(a, b);
    is_ascii_chars_encode_utf8(b);
    encode_utf8_valid_utf8(a + b);
    let first = b[0];
    assert(bytes[at] == encode_utf8(b)[0]);
    assert(bytes[at] == first as u8);
    let c = first as u8;
    assert(c < 128);
    assert(!is_continuation_byte(c)) by {
        assert(c < 128 ==> c & 0xC0 != 0x80) by (bit_vector);
    }
    is_char_boundary_iff_not_is_continuation_byte(bytes, at);
}

} // verus!
