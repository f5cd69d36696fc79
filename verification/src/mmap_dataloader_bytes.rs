//! A loader over memory-mapped shards held as shared `Bytes` buffers, so that
//! windows can be handed out as owned, reference-counted slices.

use bytes::Bytes;
use core::marker::PhantomData;
use memmap2::Mmap;
use std::path::PathBuf;
use vstd::prelude::*;
use vstd::slice::slice_subrange;

use crate::bindings::{bytes_as_slice, bytes_from_mmap, bytes_slice, bytes_view, mmap_as_slice, mmap_view};
use crate::dataloader::{chunk_step, chunks_from, lemma_scan_is_chunks, lemma_window_count, mapped_views, scan_chunks};
use crate::errors::DataLoaderError;
use crate::shard_index::{
    all_aligned, bytes_total, describes, lemma_bytes_total_prefix, lemma_bytes_total_step,
    lemma_index_determined, lemma_settle, lemma_shard_window_in_stream, settle, stream, ShardIndex,
};

verus! {

/// The teacher-forcing pair a scan yields from position `(f, i)` with windows
/// of `m` tokens, and the position after it: input tokens `i .. i + m` and the
/// target one token later, inside one shard; a shard too short for both is
/// skipped.
pub open spec fn tf_step(data: Seq<Seq<u8>>, lens: Seq<usize>, f: int, i: int, m: int) -> (Option<(Seq<u8>, Seq<u8>)>, (int, int)) {
    let (f2, i2) = settle(lens, f, i, m + 1);
    if 0 <= f2 < lens.len() {
        (
            Some((data[f2].subrange(4 * i2, 4 * (i2 + m)), data[f2].subrange(4 * i2 + 4, 4 * (i2 + m) + 4))),
            (f2, i2 + m),
        )
    } else {
        (None, (f2, i2))
    }
}

/// An exhausted teacher-forcing scan stays exhausted: from where it stopped,
/// the next step yields nothing and does not move.
pub proof fn lemma_tf_scan_stays_exhausted(data: Seq<Seq<u8>>, lens: Seq<usize>, f: int, i: int, m: int)
    requires
        f >= 0,
        i >= 0,
        tf_step(data, lens, f, i, m).0 is None,
    ensures
        ({
            let p = tf_step(data, lens, f, i, m).1;
            tf_step(data, lens, p.0, p.1, m) == (None::<(Seq<u8>, Seq<u8>)>, p)
        }),
{
    lemma_settle(lens, f, i, m + 1);
}

/// The teacher-forcing pairs a scan yields from `(f, i)` until it is exhausted.
pub open spec fn scan_tf(data: Seq<Seq<u8>>, lens: Seq<usize>, f: int, i: int, m: int) -> Seq<(Seq<u8>, Seq<u8>)>
    decreases lens.len() - f, lens[f] - i,
{
    if m <= 0 || f < 0 || i < 0 {
        Seq::empty()
    } else {
        let (w, p) = tf_step(data, lens, f, i, m);
        match w {
            Some(pair) => {
                proof {
                    lemma_settle(lens, f, i, m + 1);
                }
                seq![pair] + scan_tf(data, lens, p.0, p.1, m)
            },
            None => Seq::empty(),
        }
    }
}

/// How many pairs of `m`-token windows a shard of `len` tokens holds when each
/// needs one token more for its shifted target.
pub open spec fn tf_pair_count(len: int, m: int) -> int {
    if len == 0 {
        0
    } else {
        (len - 1) / m
    }
}

/// Pairs `from ..` of one shard: the input window of `m` tokens at token
/// `(from + j) * m` and the target one token later.
pub open spec fn shard_tf_pairs(shard: Seq<u8>, m: int, from: int) -> Seq<(Seq<u8>, Seq<u8>)> {
    Seq::new(
        (tf_pair_count(shard.len() as int / 4, m) - from) as nat,
        |j: int|
            (
                shard.subrange(4 * ((from + j) * m), 4 * ((from + j) * m + m)),
                shard.subrange(4 * ((from + j) * m) + 4, 4 * ((from + j) * m + m) + 4),
            ),
    )
}

/// The pairs of shards `f ..`, shard by shard.
pub open spec fn tf_pairs_from(data: Seq<Seq<u8>>, f: int, m: int) -> Seq<(Seq<u8>, Seq<u8>)>
    decreases data.len() - f,
{
    if f < 0 || f >= data.len() {
        Seq::empty()
    } else {
        shard_tf_pairs(data[f], m, 0) + tf_pairs_from(data, f + 1, m)
    }
}

proof fn lemma_tf_pair_count(c: int, m: int, len: int)
    requires
        m > 0,
        c >= 0,
        len >= 0,
    ensures
        (c * m + m + 1 <= len) <==> (c < tf_pair_count(len, m)),
        tf_pair_count(len, m) >= 0,
{
    if len > 0 {
        lemma_window_count(c, m, len - 1);
        lemma_window_count(0, m, len - 1);
    } else {
        assert(c * m >= 0) by (nonlinear_arith)
            requires
                c >= 0,
                m > 0,
        ;
    }
}

proof fn lemma_scan_tf_from(data: Seq<Seq<u8>>, lens: Seq<usize>, f: int, c: int, m: int)
    requires
        describes(lens, data),
        m > 0,
        0 <= f,
        0 <= c,
        f < lens.len() ==> c <= tf_pair_count(data[f].len() as int / 4, m),
        f >= lens.len() ==> c == 0,
    ensures
        f < lens.len() ==> scan_tf(data, lens, f, c * m, m) == shard_tf_pairs(data[f], m, c) + tf_pairs_from(data, f + 1, m),
        f >= lens.len() ==> scan_tf(data, lens, f, c * m, m) == tf_pairs_from(data, f, m),
    decreases lens.len() - f, lens[f] - c * m,
{
    assert(c * m >= 0) by (nonlinear_arith)
        requires
            c >= 0,
            m > 0,
    ;
    if f >= lens.len() {
        assert(c * m == 0);
        assert(scan_tf(data, lens, f, c * m, m) =~= Seq::<(Seq<u8>, Seq<u8>)>::empty());
    } else {
        let len = lens[f] as int;
        assert(4 * lens[f] == data[f].len());
        assert(data[f].len() / 4 == len);
        lemma_tf_pair_count(c, m, len);
        if c * m + m + 1 <= len {
            let i2 = c * m;
            assert((c + 1) * m == c * m + m) by (nonlinear_arith);
            lemma_tf_pair_count(c + 1, m, len);
            lemma_scan_tf_from(data, lens, f, c + 1, m);
            let pair = (data[f].subrange(4 * i2, 4 * (i2 + m)), data[f].subrange(4 * i2 + 4, 4 * (i2 + m) + 4));
            assert(tf_step(data, lens, f, i2, m) == (Some(pair), (f, i2 + m)));
            let rest = shard_tf_pairs(data[f], m, c + 1);
            assert(shard_tf_pairs(data[f], m, c) =~= seq![pair] + rest);
            assert(scan_tf(data, lens, f, c * m, m) == seq![pair] + scan_tf(data, lens, f, (c + 1) * m, m));
            assert(scan_tf(data, lens, f, c * m, m) =~= shard_tf_pairs(data[f], m, c) + tf_pairs_from(data, f + 1, m));
        } else {
            assert(c == tf_pair_count(len, m));
            assert(shard_tf_pairs(data[f], m, c) =~= Seq::<(Seq<u8>, Seq<u8>)>::empty());
            assert(settle(lens, f, c * m, m + 1) == settle(lens, f + 1, 0, m + 1));
            assert(0 * m == 0);
            if f + 1 < lens.len() {
                lemma_tf_pair_count(0, m, lens[f + 1] as int);
                assert(4 * lens[f + 1] == data[f + 1].len());
            }
            lemma_scan_tf_from(data, lens, f + 1, 0, m);
            assert(tf_step(data, lens, f, c * m, m) == tf_step(data, lens, f + 1, 0, m));
            assert(scan_tf(data, lens, f, c * m, m) == scan_tf(data, lens, f + 1, 0, m));
            assert(scan_tf(data, lens, f, c * m, m) =~= shard_tf_pairs(data[f], m, c) + tf_pairs_from(data, f + 1, m));
        }
    }
}

/// A full teacher-forcing scan over shards described by `lens` yields exactly
/// the shard-by-shard pairs: in a shard of `L` tokens, the windows at tokens
/// `0, m, 2m, ...` whose shifted target still fits, `(L - 1) / m` of them.
pub proof fn lemma_scan_tf_is_pairs(data: Seq<Seq<u8>>, lens: Seq<usize>, m: int)
    requires
        describes(lens, data),
        m > 0,
    ensures
        scan_tf(data, lens, 0, 0, m) == tf_pairs_from(data, 0, m),
{
    assert(0 * m == 0);
    if lens.len() > 0 {
        lemma_tf_pair_count(0, m, lens[0] as int);
        assert(4 * lens[0] == data[0].len());
    }
    lemma_scan_tf_from(data, lens, 0, 0, m);
    if lens.len() > 0 {
        assert(tf_pairs_from(data, 0, m) == shard_tf_pairs(data[0], m, 0) + tf_pairs_from(data, 1, m));
    }
}

/// A loader over memory-mapped shards of 4-byte tokens held as `Bytes`.
#[derive(Debug)]
pub struct MmapPretokenizedDataLoaderBytes {
    /// The mapped shard files.
    shards: Vec<Bytes>,
    /// Element counts, byte offsets and total of the shards.
    index: ShardIndex,
}

impl MmapPretokenizedDataLoaderBytes {
    /// The bytes of each shard.
    pub closed spec fn shard_data(self) -> Seq<Seq<u8>> {
        self.shards@.map_values(|b: Bytes| bytes_view(b))
    }

    /// The index of the shards.
    pub closed spec fn index(self) -> ShardIndex {
        self.index
    }

    /// The index is consistent and describes the shards.
    pub open spec fn wf(self) -> bool {
        &&& self.index().wf()
        &&& describes(self.index().lengths(), self.shard_data())
    }

    /// A loader over no shards.
    pub fn empty() -> (r: Self)
        ensures
            r.wf(),
            r.shard_data() == Seq::<Seq<u8>>::empty(),
            r.index().lengths() == Seq::<usize>::empty(),
            r.index().offsets() == seq![0usize],
            r.index().total() == 0,
    {
        let r = MmapPretokenizedDataLoaderBytes { shards: Vec::new(), index: ShardIndex::new() };
        assert(r.shard_data() =~= Seq::<Seq<u8>>::empty());
        r
    }

    /// Appends one mapped shard read from `path`, wrapped without copying.
    /// Its byte size must be a multiple of 4; otherwise the result is
    /// `InvalidByteAlignment` with that size and path.
    pub fn push_shard(self, path: PathBuf, mmap: Mmap) -> (r: Result<Self, DataLoaderError>)
        requires
            self.wf(),
            mmap_view(mmap).len() % 4 == 0 ==> self.index().end_offset() + mmap_view(mmap).len() <= usize::MAX,
        ensures
            r is Ok <==> mmap_view(mmap).len() % 4 == 0,
            r matches Ok(l) ==> {
                &&& l.wf()
                &&& l.shard_data() == self.shard_data().push(mmap_view(mmap))
                &&& l.index().lengths() == self.index().lengths().push((mmap_view(mmap).len() / 4) as usize)
                &&& l.index().offsets() == self.index().offsets().push(
                    (self.index().end_offset() + mmap_view(mmap).len()) as usize,
                )
                &&& l.index().total() == self.index().total() + mmap_view(mmap).len() / 4
            },
            r matches Err(e) ==> e == (DataLoaderError::InvalidByteAlignment {
                size: mmap_view(mmap).len() as usize,
                path: path,
            }),
    {
        let byte_len = mmap_as_slice(&mmap).len();
        if byte_len % 4 != 0 {
            return Err(DataLoaderError::InvalidByteAlignment { size: byte_len, path });
        }
        let MmapPretokenizedDataLoaderBytes { mut shards, index } = self;
        let ghost old_shards = shards@;
        shards.push(bytes_from_mmap(mmap));
        let index = index.with_shard(byte_len);
        let r = MmapPretokenizedDataLoaderBytes { shards, index };
        proof {
            let data = r.shard_data();
            let lens = r.index().lengths();
            assert(data =~= self.shard_data().push(mmap_view(mmap)));
            assert forall|i: int| 0 <= i < data.len() implies 4 * #[trigger] lens[i] == data[i].len() by {
                if i < old_shards.len() {
                    assert(lens[i] == self.index().lengths()[i]);
                    assert(data[i] == self.shard_data()[i]);
                }
            }
        }
        Ok(r)
    }

    /// Whether appending `mmap` keeps the byte offsets inside `usize`, as
    /// [`Self::push_shard`] requires.
    pub fn push_fits(&self, mmap: &Mmap) -> (r: bool)
        requires
            self.wf(),
        ensures
            r == (mmap_view(*mmap).len() % 4 == 0 ==> self.index().end_offset() + mmap_view(*mmap).len()
                <= usize::MAX),
    {
        let len = mmap_as_slice(mmap).len();
        let n = self.index.num_shards();
        let end = self.index.shard_offsets()[n];
        len % 4 != 0 || len <= usize::MAX - end
    }

    /// Builds the loader over already-mapped shard files, in order. The first
    /// shard whose byte size is not a multiple of 4 makes the result
    /// `InvalidByteAlignment` with its size and path.
    pub fn map_data(data_files: Vec<(PathBuf, Mmap)>) -> (r: Result<Self, DataLoaderError>)
        requires
            bytes_total(mapped_views(data_files@)) <= usize::MAX,
        ensures
            r is Ok <==> all_aligned(mapped_views(data_files@)),
            r matches Ok(l) ==> l.wf() && l.shard_data() == mapped_views(data_files@),
            r matches Err(e) ==> exists|k: int|
                {
                    &&& 0 <= k < data_files@.len()
                    &&& #[trigger] mapped_views(data_files@)[k].len() % 4 != 0
                    &&& all_aligned(mapped_views(data_files@).take(k))
                    &&& e == (DataLoaderError::InvalidByteAlignment {
                        size: mapped_views(data_files@)[k].len() as usize,
                        path: data_files@[k].0,
                    })
                },
    {
        let ghost orig = data_files@;
        let ghost views = mapped_views(orig);
        let mut files = data_files;
        let mut loader = Self::empty();
        let ghost mut k: int = 0;
        assert(views.take(0) =~= Seq::<Seq<u8>>::empty());
        #[verifier::loop_isolation(false)]
        while files.len() > 0
            invariant
                0 <= k <= orig.len(),
                views == mapped_views(orig),
                files@ == orig.skip(k),
                loader.wf(),
                loader.shard_data() == views.take(k),
                all_aligned(views.take(k)),
                loader.index().end_offset() == bytes_total(views.take(k)),
                bytes_total(views) <= usize::MAX,
            decreases files.len(),
        {
            let (path, mmap) = files.remove(0);
            proof {
                assert(orig[k] == (path, mmap));
                assert(views[k] == mmap_view(mmap));
                lemma_bytes_total_step(views, k);
                lemma_bytes_total_prefix(views, k + 1);
            }
            let ghost gpath = path;
            let ghost gmmap = mmap;
            loader = match loader.push_shard(path, mmap) {
                Ok(l) => l,
                Err(e) => {
                    proof {
                        assert(orig[k].0 == gpath);
                        assert(views[k] == mmap_view(gmmap));
                        assert(views[k].len() % 4 != 0);
                        assert(!all_aligned(views));
                    }
                    return Err(e);
                },
            };
            proof {
                assert(views.take(k + 1) =~= views.take(k).push(views[k]));
                assert(files@ =~= orig.skip(k + 1));
                k = k + 1;
            }
        }
        proof {
            assert(views.take(k) =~= views);
        }
        Ok(loader)
    }

    /// The index is determined by the shards: one element per 4 bytes of each
    /// shard, `n + 1` offsets that are the cumulative byte sizes from 0, and a
    /// total of all elements.
    pub proof fn lemma_layout(self)
        requires
            self.wf(),
        ensures
            self.index().lengths().len() == self.shard_data().len(),
            self.index().offsets().len() == self.shard_data().len() + 1,
            forall|i: int| 0 <= i < self.shard_data().len() ==> #[trigger] self.index().lengths()[i]
                == self.shard_data()[i].len() / 4,
            forall|i: int| 0 <= i <= self.shard_data().len() ==> #[trigger] self.index().offsets()[i]
                == bytes_total(self.shard_data().take(i)),
            4 * self.index().total() == bytes_total(self.shard_data()),
    {
        lemma_index_determined(self.index().lengths(), self.index().offsets(), self.index().total(), self.shard_data());
    }

    /// Every teacher-forcing pair a scan yields lies in one shard and is a
    /// window of the concatenated stream: the input `width` tokens at the
    /// settled position, the target the same length one token later; so the
    /// target repeats the input without its first token.
    pub proof fn lemma_tf_pair_in_stream(self, f: int, i: int, m: int)
        requires
            self.wf(),
            f >= 0,
            i >= 0,
            m >= 0,
        ensures
            ({
                let (w, p) = tf_step(self.shard_data(), self.index().lengths(), f, i, m);
                let (f2, i2) = settle(self.index().lengths(), f, i, m + 1);
                let start = self.index().offsets()[f2] + 4 * i2;
                w matches Some((input, target)) ==> {
                    &&& input == stream(self.shard_data()).subrange(start, start + 4 * m)
                    &&& target == stream(self.shard_data()).subrange(start + 4, start + 4 * m + 4)
                    &&& m > 0 ==> input.subrange(4, 4 * m) == target.subrange(0, 4 * m - 4)
                }
            }),
    {
        let lens = self.index().lengths();
        let offs = self.index().offsets();
        let data = self.shard_data();
        lemma_settle(lens, f, i, m + 1);
        let (f2, i2) = settle(lens, f, i, m + 1);
        if 0 <= f2 < lens.len() {
            let total = self.index().total();
            lemma_shard_window_in_stream(lens, offs, total, data, f2, 4 * i2, 4 * i2 + 4 * m);
            lemma_shard_window_in_stream(lens, offs, total, data, f2, 4 * i2 + 4, 4 * i2 + 4 * m + 4);
            let input = data[f2].subrange(4 * i2, 4 * (i2 + m));
            let target = data[f2].subrange(4 * i2 + 4, 4 * (i2 + m) + 4);
            if m > 0 {
                assert(input.subrange(4, 4 * m) =~= target.subrange(0, 4 * m - 4));
            }
        }
    }

    /// A full chunk scan with windows of `m > 0` tokens yields, shard by shard,
    /// every whole window of `m` tokens counted from the shard's start; the
    /// tail of a shard shorter than `m` tokens is skipped, so no window
    /// straddles two shards.
    pub proof fn lemma_scan_yields_shard_chunks(self, m: int)
        requires
            self.wf(),
            m > 0,
        ensures
            scan_chunks(self.shard_data(), self.index().lengths(), 0, 0, m) == chunks_from(self.shard_data(), 0, m),
    {
        lemma_scan_is_chunks(self.shard_data(), self.index().lengths(), m);
    }

    /// A full teacher-forcing scan with windows of `m > 0` tokens yields, shard
    /// by shard, the pairs at tokens `0, m, 2m, ...` whose target (one token
    /// later) still fits in the shard; nothing straddles two shards.
    pub proof fn lemma_scan_yields_tf_pairs(self, m: int)
        requires
            self.wf(),
            m > 0,
        ensures
            scan_tf(self.shard_data(), self.index().lengths(), 0, 0, m) == tf_pairs_from(self.shard_data(), 0, m),
    {
        lemma_scan_tf_is_pairs(self.shard_data(), self.index().lengths(), m);
    }

    /// The two loaders index the same shards identically.
    pub proof fn lemma_same_index_as_mapped_loader(self, other: crate::dataloader::PretokenizedDataLoader)
        requires
            self.wf(),
            other.wf(),
            self.shard_data() == other.shard_data(),
        ensures
            self.index().lengths() == other.index().lengths(),
            self.index().offsets() == other.index().offsets(),
            self.index().total() == other.index().total(),
    {
        self.lemma_layout();
        other.lemma_layout();
        assert(self.index().lengths() =~= other.index().lengths());
        assert(self.index().offsets() =~= other.index().offsets());
    }

    /// Elements (4-byte tokens) across all shards.
    pub fn total_size(&self) -> (r: usize)
        ensures
            r == self.index().total(),
    {
        self.index.total_size()
    }

    /// Number of mapped shards.
    pub fn total_num_shards(&self) -> (r: usize)
        ensures
            r == self.shard_data().len(),
    {
        self.shards.len()
    }

    /// Element count of each shard.
    pub fn shard_lengths(&self) -> (r: &[usize])
        ensures
            r@ == self.index().lengths(),
    {
        self.index.shard_lengths()
    }

    /// Start byte of each shard in the concatenated stream, then the end byte.
    pub fn shard_offsets(&self) -> (r: &[usize])
        ensures
            r@ == self.index().offsets(),
    {
        self.index.shard_offsets()
    }

    /// Windows of `num_elements` tokens as borrowed bytes.
    pub fn iter(&self, num_elements: usize) -> (r: ChunkedShardBytesIter<'_, &'_ [u8]>)
        requires
            self.wf(),
        ensures
            r.wf(),
            r.loader() == *self,
            r.width() == num_elements,
            r.position() == (0int, 0int),
    {
        ChunkedShardBytesIter::new(self, num_elements)
    }

    /// Teacher-forcing pairs of `num_elements` tokens as shared buffers: the
    /// input window and the same window one token later.
    pub fn iter_tf(&self, num_elements: usize) -> (r: ChunkedShardBytesIter<'_, (Bytes, Bytes)>)
        requires
            self.wf(),
        ensures
            r.wf(),
            r.loader() == *self,
            r.width() == num_elements,
            r.position() == (0int, 0int),
    {
        ChunkedShardBytesIter::new(self, num_elements)
    }
}

/// A zero-copy scan over the `Bytes` loader's shards in windows of a fixed
/// number of tokens, yielding them as `T`.
pub struct ChunkedShardBytesIter<'a, T> {
    dataloader: &'a MmapPretokenizedDataLoaderBytes,
    /// Element position inside the current shard.
    current_idx: usize,
    current_file_idx: usize,
    num_elements: usize,
    _marker: PhantomData<T>,
}

impl<'a, T> ChunkedShardBytesIter<'a, T> {
    /// The loader scanned.
    pub closed spec fn loader(self) -> MmapPretokenizedDataLoaderBytes {
        *self.dataloader
    }

    /// Current (shard, element) position.
    pub closed spec fn position(self) -> (int, int) {
        (self.current_file_idx as int, self.current_idx as int)
    }

    /// Tokens per window.
    pub closed spec fn width(self) -> usize {
        self.num_elements
    }

    /// The loader is well formed, and inside a shard the position lies within
    /// it, at 0 or past at least one whole window.
    pub open spec fn wf(self) -> bool {
        &&& self.loader().wf()
        &&& self.position().0 >= 0
        &&& self.position().1 >= 0
        &&& self.position().0 < self.loader().index().lengths().len() ==> {
            &&& self.position().1 <= self.loader().index().lengths()[self.position().0]
            &&& (self.position().1 == 0 || self.width() <= self.position().1)
        }
    }

    fn new(dataloader: &'a MmapPretokenizedDataLoaderBytes, num_elements: usize) -> (r: Self)
        requires
            dataloader.wf(),
        ensures
            r.wf(),
            r.loader() == *dataloader,
            r.width() == num_elements,
            r.position() == (0int, 0int),
    {
        ChunkedShardBytesIter {
            dataloader,
            current_idx: 0,
            current_file_idx: 0,
            num_elements,
            _marker: PhantomData,
        }
    }

    /// No window is left for a chunk scan from here.
    pub open spec fn exhausted(self) -> bool {
        chunk_step(
            self.loader().shard_data(),
            self.loader().index().lengths(),
            self.position().0,
            self.position().1,
            self.width() as int,
        ).0 is None
    }

    /// No pair is left for a teacher-forcing scan from here.
    pub open spec fn tf_exhausted(self) -> bool {
        tf_step(
            self.loader().shard_data(),
            self.loader().index().lengths(),
            self.position().0,
            self.position().1,
            self.width() as int,
        ).0 is None
    }
}

impl<'a> ChunkedShardBytesIter<'a, &'a [u8]> {
    /// The next window of borrowed bytes (see `chunk_step`).
    pub fn next(&mut self) -> (r: Option<&'a [u8]>)
        requires
            old(self).wf(),
        ensures
            final(self).wf(),
            r is None ==> final(self).exhausted(),
            final(self).loader() == old(self).loader(),
            final(self).width() == old(self).width(),
            ({
                let (w, p) = chunk_step(
                    old(self).loader().shard_data(),
                    old(self).loader().index().lengths(),
                    old(self).position().0,
                    old(self).position().1,
                    old(self).width() as int,
                );
                &&& final(self).position() == p
                &&& match r {
                    Some(s) => w == Some(s@),
                    None => w is None,
                }
            }),
    {
        let loader: &'a MmapPretokenizedDataLoaderBytes = self.dataloader;
        let ghost lens = loader.index().lengths();
        let ghost offs = loader.index().offsets();
        let m = self.num_elements;
        let (f, i) = loader.index.settle_window(self.current_file_idx, self.current_idx, m);
        proof {
            lemma_settle(lens, self.current_file_idx as int, self.current_idx as int, m as int);
        }
        let n = loader.shards.len();
        if f < n {
            proof {
                assert(offs[f as int + 1] == offs[f as int] + 4 * lens[f as int]);
                assert(loader.shard_data()[f as int] == bytes_view(loader.shards@[f as int]));
            }
            let bytes = bytes_as_slice(&loader.shards[f]);
            let start = i * 4;
            let window = slice_subrange(bytes, start, start + m * 4);
            self.current_file_idx = f;
            self.current_idx = i + m;
            Some(window)
        } else {
            self.current_file_idx = f;
            self.current_idx = i;
            None
        }
    }
}

impl<'a> ChunkedShardBytesIter<'a, (Bytes, Bytes)> {
    /// The scan's arithmetic on the current position stays inside `usize`.
    pub open spec fn tf_fits(self) -> bool {
        self.position().0 < self.loader().index().lengths().len()
            ==> 4 * self.position().1 + 4 * self.width() + 4 <= usize::MAX
    }

    /// Whether [`Self::next`] can take another step (see [`Self::tf_fits`]).
    pub fn fits_next(&self) -> (r: bool)
        requires
            self.wf(),
        ensures
            r == self.tf_fits(),
    {
        if self.current_file_idx >= self.dataloader.shards.len() {
            return true;
        }
        let cap = usize::MAX / 4;
        self.current_idx <= cap && self.num_elements <= cap - self.current_idx && 1 <= cap - self.current_idx
            - self.num_elements
    }

    /// The next teacher-forcing pair (see [`tf_step`]) as shared buffers.
    pub fn next(&mut self) -> (r: Option<(Bytes, Bytes)>)
        requires
            old(self).wf(),
            old(self).tf_fits(),
        ensures
            final(self).wf(),
            r is None ==> final(self).tf_exhausted(),
            final(self).loader() == old(self).loader(),
            final(self).width() == old(self).width(),
            ({
                let (w, p) = tf_step(
                    old(self).loader().shard_data(),
                    old(self).loader().index().lengths(),
                    old(self).position().0,
                    old(self).position().1,
                    old(self).width() as int,
                );
                &&& final(self).position() == p
                &&& match r {
                    Some((input, target)) => w == Some((bytes_view(input), bytes_view(target))),
                    None => w is None,
                }
            }),
    {
        let loader: &'a MmapPretokenizedDataLoaderBytes = self.dataloader;
        let ghost lens = loader.index().lengths();
        let ghost offs = loader.index().offsets();
        let m = self.num_elements;
        let n = loader.shards.len();
        if self.current_file_idx >= n {
            proof {
                lemma_settle(lens, self.current_file_idx as int, self.current_idx as int, m as int + 1);
            }
            return None;
        }
        let (f, i) = loader.index.settle_window(self.current_file_idx, self.current_idx, m + 1);
        proof {
            lemma_settle(lens, self.current_file_idx as int, self.current_idx as int, m as int + 1);
        }
        if f < n {
            proof {
                assert(offs[f as int + 1] == offs[f as int] + 4 * lens[f as int]);
                assert(loader.shard_data()[f as int] == bytes_view(loader.shards@[f as int]));
            }
            let shard = &loader.shards[f];
            let local_start = i * 4;
            let batch_byte_len = m * 4;
            let input = bytes_slice(shard, local_start, local_start + batch_byte_len);
            let target = bytes_slice(shard, local_start + 4, local_start + batch_byte_len + 4);
            self.current_file_idx = f;
            self.current_idx = i + m;
            Some((input, target))
        } else {
            self.current_file_idx = f;
            self.current_idx = i;
            None
        }
    }
}

} // verus!
