//! A loader over memory-mapped shards of 4-byte tokens, exposing contiguous
//! zero-copy windows of the underlying bytes.

use core::marker::PhantomData;
use memmap2::Mmap;
use std::path::PathBuf;
use vstd::prelude::*;
use vstd::slice::slice_subrange;

use crate::bindings::{cast_i32_words, cast_u32_words, mmap_as_slice, mmap_view};
use crate::errors::DataLoaderError;
use crate::shard_index::{
    all_aligned, bytes_total, containing_shard, describes, lemma_bytes_total_prefix,
    lemma_bytes_total_step, holds_tf_window, lemma_index_determined, lemma_last_start, lemma_tf_lookup_finds, lemma_settle, lemma_shard_window_in_stream,
    settle, stream, tf_request_fits, tf_window_at, ShardIndex,
};
use crate::pretokenizer::{dataset_tokens, lemma_records_len, records_bytes, tokens_with_markers};
use crate::words::{lemma_i32_words_of_window, lemma_words_of_window, native_i32_words, native_u32_words};

verus! {

/// The bytes of each mapped shard, in order.
pub open spec fn mapped_views(files: Seq<(PathBuf, Mmap)>) -> Seq<Seq<u8>> {
    files.map_values(|f: (PathBuf, Mmap)| mmap_view(f.1))
}

/// The input and target byte windows of a teacher-forcing batch located by
/// `tf_window_at`: `batch_bytes` bytes from the local start, and the same
/// length shifted right by one 4-byte token.
pub open spec fn tf_views(data: Seq<Seq<u8>>, w: Option<(int, int)>, batch_bytes: int) -> Option<(Seq<u8>, Seq<u8>)> {
    match w {
        Some((k, l)) => Some((data[k].subrange(l, l + batch_bytes), data[k].subrange(l + 4, l + batch_bytes + 4))),
        None => None,
    }
}

/// Whether the mapped shards' bytes together fit in `usize`, as `map_data` requires.
pub fn mapped_total_fits(data_files: &Vec<(PathBuf, Mmap)>) -> (r: bool)
    ensures
        r == (bytes_total(mapped_views(data_files@)) <= usize::MAX),
{
    let ghost views = mapped_views(data_files@);
    let mut total: usize = 0;
    let mut k: usize = 0;
    assert(views.take(0) =~= Seq::<Seq<u8>>::empty());
    while k < data_files.len()
        invariant
            k <= data_files@.len(),
            views == mapped_views(data_files@),
            total == bytes_total(views.take(k as int)),
        decreases data_files@.len() - k,
    {
        let len = mmap_as_slice(&data_files[k].1).len();
        proof {
            assert(views[k as int] == mmap_view(data_files@[k as int].1));
            lemma_bytes_total_step(views, k as int);
        }
        if len > usize::MAX - total {
            proof {
                lemma_bytes_total_prefix(views, k as int + 1);
            }
            return false;
        }
        total = total + len;
        k = k + 1;
    }
    assert(views.take(k as int) =~= views);
    true
}

proof fn lemma_bytes_total_of_records(data: Seq<Seq<u8>>, docs: Seq<Seq<Seq<u32>>>, eos_id: u32)
    requires
        data.len() == docs.len(),
        forall|s: int| 0 <= s < docs.len() ==> #[trigger] data[s] == records_bytes(docs[s], eos_id),
    ensures
        bytes_total(data) == 4 * dataset_tokens(docs),
    decreases docs.len(),
{
    if docs.len() > 0 {
        let n = docs.len() - 1;
        assert forall|s: int| 0 <= s < n implies #[trigger] data.drop_last()[s] == records_bytes(
            docs.drop_last()[s],
            eos_id,
        ) by {
            assert(data[s] == records_bytes(docs[s], eos_id));
        }
        lemma_bytes_total_of_records(data.drop_last(), docs.drop_last(), eos_id);
        assert(data[n] == records_bytes(docs[n], eos_id));
        lemma_records_len(docs.last(), eos_id);
    }
}

/// A loader over memory-mapped shards, each holding whole 4-byte tokens.
pub struct PretokenizedDataLoader {
    /// The mapped shard files.
    shards: Vec<Mmap>,
    /// Element counts, byte offsets and total of the shards.
    index: ShardIndex,
}

impl PretokenizedDataLoader {
    /// The bytes of each shard.
    pub closed spec fn shard_data(self) -> Seq<Seq<u8>> {
        self.shards@.map_values(|m: Mmap| mmap_view(m))
    }

    /// The index of the shards.
    pub closed spec fn index(self) -> ShardIndex {
        self.index
    }

    /// The index is consistent and describes the mapped shards.
    pub open spec fn wf(self) -> bool {
        &&& self.index().wf()
        &&& describes(self.index().lengths(), self.shard_data())
    }

    /// A loader over no shards.
    pub fn empty() -> (r: Self)
        ensures
            r.wf(),
            r.shard_data() == Seq::<Seq<u8>>::empty(),
            r.index().lengths() == Seq::<usize>::empty(),
            r.index().offsets() == seq![0usize],
            r.index().total() == 0,
    {
        let r = PretokenizedDataLoader { shards: Vec::new(), index: ShardIndex::new() };
        assert(r.shard_data() =~= Seq::<Seq<u8>>::empty());
        r
    }

    /// Appends one mapped shard read from `path`. Its byte size must be a
    /// multiple of 4; otherwise the result is `InvalidByteAlignment` with that
    /// size and path.
    pub fn push_shard(self, path: PathBuf, mmap: Mmap) -> (r: Result<Self, DataLoaderError>)
        requires
            self.wf(),
            mmap_view(mmap).len() % 4 == 0 ==> self.index().end_offset() + mmap_view(mmap).len() <= usize::MAX,
        ensures
            r is Ok <==> mmap_view(mmap).len() % 4 == 0,
            r matches Ok(l) ==> {
                &&& l.wf()
                &&& l.shard_data() == self.shard_data().push(mmap_view(mmap))
                &&& l.index().lengths() == self.index().lengths().push((mmap_view(mmap).len() / 4) as usize)
                &&& l.index().offsets() == self.index().offsets().push(
                    (self.index().end_offset() + mmap_view(mmap).len()) as usize,
                )
                &&& l.index().total() == self.index().total() + mmap_view(mmap).len() / 4
            },
            r matches Err(e) ==> e == (DataLoaderError::InvalidByteAlignment {
                size: mmap_view(mmap).len() as usize,
                path: path,
            }),
    {
        let byte_len = mmap_as_slice(&mmap).len();
        if byte_len % 4 != 0 {
            return Err(DataLoaderError::InvalidByteAlignment { size: byte_len, path });
        }
        let PretokenizedDataLoader { mut shards, index } = self;
        let ghost old_shards = shards@;
        shards.push(mmap);
        let index = index.with_shard(byte_len);
        let r = PretokenizedDataLoader { shards, index };
        proof {
            let data = r.shard_data();
            let lens = r.index().lengths();
            assert(data =~= self.shard_data().push(mmap_view(mmap)));
            assert forall|i: int| 0 <= i < data.len() implies 4 * #[trigger] lens[i] == data[i].len() by {
                if i < old_shards.len() {
                    assert(lens[i] == self.index().lengths()[i]);
                    assert(data[i] == self.shard_data()[i]);
                }
            }
        }
        Ok(r)
    }

    /// Whether appending `mmap` keeps the byte offsets inside `usize`, as
    /// [`Self::push_shard`] requires.
    pub fn push_fits(&self, mmap: &Mmap) -> (r: bool)
        requires
            self.wf(),
        ensures
            r == (mmap_view(*mmap).len() % 4 == 0 ==> self.index().end_offset() + mmap_view(*mmap).len()
                <= usize::MAX),
    {
        let len = mmap_as_slice(mmap).len();
        let n = self.index.num_shards();
        let end = self.index.shard_offsets()[n];
        len % 4 != 0 || len <= usize::MAX - end
    }

    /// Builds the loader over already-mapped shard files, in order. The first
    /// shard whose byte size is not a multiple of 4 makes the result
    /// `InvalidByteAlignment` with its size and path.
    pub fn map_data(data_files: Vec<(PathBuf, Mmap)>) -> (r: Result<Self, DataLoaderError>)
        requires
            bytes_total(mapped_views(data_files@)) <= usize::MAX,
        ensures
            r is Ok <==> all_aligned(mapped_views(data_files@)),
            r matches Ok(l) ==> l.wf() && l.shard_data() == mapped_views(data_files@),
            r matches Err(e) ==> exists|k: int|
                {
                    &&& 0 <= k < data_files@.len()
                    &&& #[trigger] mapped_views(data_files@)[k].len() % 4 != 0
                    &&& all_aligned(mapped_views(data_files@).take(k))
                    &&& e == (DataLoaderError::InvalidByteAlignment {
                        size: mapped_views(data_files@)[k].len() as usize,
                        path: data_files@[k].0,
                    })
                },
    {
        let ghost orig = data_files@;
        let ghost views = mapped_views(orig);
        let mut files = data_files;
        let mut loader = Self::empty();
        let ghost mut k: int = 0;
        assert(views.take(0) =~= Seq::<Seq<u8>>::empty());
        #[verifier::loop_isolation(false)]
        while files.len() > 0
            invariant
                0 <= k <= orig.len(),
                views == mapped_views(orig),
                files@ == orig.skip(k),
                loader.wf(),
                loader.shard_data() == views.take(k),
                all_aligned(views.take(k)),
                loader.index().end_offset() == bytes_total(views.take(k)),
                bytes_total(views) <= usize::MAX,
            decreases files.len(),
        {
            let (path, mmap) = files.remove(0);
            proof {
                assert(orig[k] == (path, mmap));
                assert(views[k] == mmap_view(mmap));
                lemma_bytes_total_step(views, k);
                lemma_bytes_total_prefix(views, k + 1);
            }
            let ghost gpath = path;
            let ghost gmmap = mmap;
            loader = match loader.push_shard(path, mmap) {
                Ok(l) => l,
                Err(e) => {
                    proof {
                        assert(orig[k].0 == gpath);
                        assert(views[k] == mmap_view(gmmap));
                        assert(views[k].len() % 4 != 0);
                        assert(!all_aligned(views));
                    }
                    return Err(e);
                },
            };
            proof {
                assert(views.take(k + 1) =~= views.take(k).push(views[k]));
                assert(files@ =~= orig.skip(k + 1));
                k = k + 1;
            }
        }
        proof {
            assert(views.take(k) =~= views);
        }
        Ok(loader)
    }

    /// The index is determined by the shards: one element per 4 bytes of each
    /// shard, `n + 1` offsets that are the cumulative byte sizes from 0, and a
    /// total of all elements.
    pub proof fn lemma_layout(self)
        requires
            self.wf(),
        ensures
            self.index().lengths().len() == self.shard_data().len(),
            self.index().offsets().len() == self.shard_data().len() + 1,
            forall|i: int| 0 <= i < self.shard_data().len() ==> #[trigger] self.index().lengths()[i]
                == self.shard_data()[i].len() / 4,
            forall|i: int| 0 <= i <= self.shard_data().len() ==> #[trigger] self.index().offsets()[i]
                == bytes_total(self.shard_data().take(i)),
            4 * self.index().total() == bytes_total(self.shard_data()),
    {
        lemma_index_determined(self.index().lengths(), self.index().offsets(), self.index().total(), self.shard_data());
    }

    /// A teacher-forcing batch is a window of the concatenated shard stream:
    /// the input is stream bytes `g .. g + 4 * batch_elements`, the target the
    /// same length starting one token (4 bytes) later.
    pub proof fn lemma_tf_batch_in_stream(self, idx: usize, batch_elements: usize)
        requires
            self.wf(),
            tf_window_at(
                self.index().lengths(),
                self.index().offsets(),
                containing_shard(self.index().offsets(), idx * (batch_elements * 4)),
                idx * (batch_elements * 4),
                batch_elements * 4,
            ) is Some,
        ensures
            ({
                let g = idx * (batch_elements * 4);
                let bb = batch_elements * 4;
                let lens = self.index().lengths();
                let offs = self.index().offsets();
                tf_views(self.shard_data(), tf_window_at(lens, offs, containing_shard(offs, g), g, bb), bb) == Some(
                    (stream(self.shard_data()).subrange(g, g + bb), stream(self.shard_data()).subrange(g + 4, g + bb + 4)),
                )
            }),
    {
        let g = idx * (batch_elements * 4);
        let bb = batch_elements * 4;
        let lens = self.index().lengths();
        let offs = self.index().offsets();
        let data = self.shard_data();
        let k = containing_shard(offs, g);
        let l = g - offs[k];
        lemma_last_start(offs, g, lens.len() as int);
        lemma_shard_window_in_stream(lens, offs, self.index().total(), data, k, l, l + bb);
        lemma_shard_window_in_stream(lens, offs, self.index().total(), data, k, l + 4, l + bb + 4);
    }

    /// Every window a chunk scan yields is `width` tokens of one shard, at the
    /// matching place of the concatenated stream.
    pub proof fn lemma_chunk_in_stream(self, f: int, i: int, m: int)
        requires
            self.wf(),
            f >= 0,
            i >= 0,
            m >= 0,
        ensures
            ({
                let (w, p) = chunk_step(self.shard_data(), self.index().lengths(), f, i, m);
                let (f2, i2) = settle(self.index().lengths(), f, i, m);
                w matches Some(bytes) ==> {
                    &&& bytes.len() == 4 * m
                    &&& bytes == stream(self.shard_data()).subrange(
                        self.index().offsets()[f2] + 4 * i2,
                        self.index().offsets()[f2] + 4 * i2 + 4 * m,
                    )
                }
            }),
    {
        let lens = self.index().lengths();
        lemma_settle(lens, f, i, m);
        let (f2, i2) = settle(lens, f, i, m);
        if 0 <= f2 < lens.len() {
            lemma_shard_window_in_stream(
                lens,
                self.index().offsets(),
                self.index().total(),
                self.shard_data(),
                f2,
                4 * i2,
                4 * i2 + 4 * m,
            );
        }
    }

    /// A full chunk scan with windows of `m > 0` tokens yields, shard by shard,
    /// every whole window of `m` tokens counted from the shard's start; the
    /// tail of a shard shorter than `m` tokens is skipped, so no window
    /// straddles two shards.
    pub proof fn lemma_scan_yields_shard_chunks(self, m: int)
        requires
            self.wf(),
            m > 0,
        ensures
            scan_chunks(self.shard_data(), self.index().lengths(), 0, 0, m) == chunks_from(self.shard_data(), 0, m),
    {
        lemma_scan_is_chunks(self.shard_data(), self.index().lengths(), m);
    }

    /// Loading what pretokenization wrote: when shard `s` holds the records of
    /// the documents `docs[s]`, its element count is its documents' ids plus
    /// one end-of-sequence marker per document (so a shard with a document is
    /// never empty), and the total is that count over the whole dataset.
    pub proof fn lemma_loads_pretokenized(self, docs: Seq<Seq<Seq<u32>>>, eos_id: u32)
        requires
            self.wf(),
            self.shard_data().len() == docs.len(),
            forall|s: int| 0 <= s < docs.len() ==> #[trigger] self.shard_data()[s] == records_bytes(docs[s], eos_id),
        ensures
            forall|s: int| 0 <= s < docs.len() ==> #[trigger] self.index().lengths()[s] == tokens_with_markers(docs[s]),
            forall|s: int| 0 <= s < docs.len() && docs[s].len() > 0 ==> #[trigger] self.index().lengths()[s] > 0,
            self.index().total() == dataset_tokens(docs),
    {
        self.lemma_layout();
        let data = self.shard_data();
        assert forall|s: int| 0 <= s < docs.len() implies #[trigger] self.index().lengths()[s] == tokens_with_markers(
            docs[s],
        ) by {
            lemma_records_len(docs[s], eos_id);
            assert(self.index().lengths()[s] == data[s].len() / 4);
        }
        lemma_bytes_total_of_records(data, docs, eos_id);
    }

    /// Elements (4-byte tokens) across all shards.
    pub fn total_size(&self) -> (r: usize)
        ensures
            r == self.index().total(),
    {
        self.index.total_size()
    }

    /// Number of mapped shards.
    pub fn total_num_shards(&self) -> (r: usize)
        ensures
            r == self.shard_data().len(),
    {
        self.shards.len()
    }

    /// Element count of each shard.
    pub fn shard_lengths(&self) -> (r: &[usize])
        ensures
            r@ == self.index().lengths(),
    {
        self.index.shard_lengths()
    }

    /// Start byte of each shard in the concatenated stream, then the end byte.
    pub fn shard_offsets(&self) -> (r: &[usize])
        ensures
            r@ == self.index().offsets(),
    {
        self.index.shard_offsets()
    }

    /// Whether batch `idx` of `batch_elements` tokens stays inside `usize`
    /// arithmetic, as [`Self::get_tf_batch_u8`] requires.
    pub fn batch_fits(&self, idx: usize, batch_elements: usize) -> (r: bool)
        requires
            self.wf(),
        ensures
            r == tf_request_fits(self.index().lengths(), self.index().offsets(), idx as int, batch_elements as int),
    {
        self.index.tf_request_within_limits(idx, batch_elements)
    }

    /// The input and target byte windows of teacher-forcing batch `idx` with
    /// `batch_elements` tokens: input is bytes `g .. g + 4 * batch_elements` of
    /// the stream (`g = idx * 4 * batch_elements`), target the same window one
    /// token later. `None` when the two windows do not lie inside one shard.
    /// When `g` is also the start of an empty shard before the containing one,
    /// the offset search may settle on the empty shard and give `None`.
    pub fn get_tf_batch_u8(&self, idx: usize, batch_elements: usize) -> (r: Option<(&[u8], &[u8])>)
        requires
            self.wf(),
            tf_request_fits(self.index().lengths(), self.index().offsets(), idx as int, batch_elements as int),
        ensures
            ({
                let lens = self.index().lengths();
                let offs = self.index().offsets();
                let g = idx * (batch_elements * 4);
                let k = containing_shard(offs, g);
                let expected = tf_views(self.shard_data(), tf_window_at(lens, offs, k, g, batch_elements * 4), batch_elements * 4);
                match r {
                    Some((input, target)) => expected == Some((input@, target@)),
                    None => expected is None || exists|j: int| 0 <= j < k && #[trigger] offs[j] == g,
                }
            }),
            forall|s: int|
                #[trigger] holds_tf_window(
                    self.index().lengths(),
                    self.index().offsets(),
                    s,
                    idx * (batch_elements * 4),
                    batch_elements * 4,
                ) ==> (r matches Some((input, target)) && input@ == stream(self.shard_data()).subrange(
                    idx * (batch_elements * 4),
                    idx * (batch_elements * 4) + batch_elements * 4,
                ) && target@ == stream(self.shard_data()).subrange(
                    idx * (batch_elements * 4) + 4,
                    idx * (batch_elements * 4) + batch_elements * 4 + 4,
                )),
            r matches Some((input, target)) ==> input@ == stream(self.shard_data()).subrange(
                idx * (batch_elements * 4),
                idx * (batch_elements * 4) + batch_elements * 4,
            ) && target@ == stream(self.shard_data()).subrange(
                idx * (batch_elements * 4) + 4,
                idx * (batch_elements * 4) + batch_elements * 4 + 4,
            ),
    {
        proof {
            let g = idx * (batch_elements * 4);
            let lens = self.index().lengths();
            let offs = self.index().offsets();
            if tf_window_at(lens, offs, containing_shard(offs, g), g, batch_elements * 4) is Some {
                self.lemma_tf_batch_in_stream(idx, batch_elements);
            }
            if exists|s: int| #[trigger] holds_tf_window(lens, offs, s, g, batch_elements * 4) {
                let s = choose|s: int| #[trigger] holds_tf_window(lens, offs, s, g, batch_elements * 4);
                lemma_tf_lookup_finds(lens, offs, self.index().total(), g, batch_elements * 4, s);
                self.lemma_tf_batch_in_stream(idx, batch_elements);
            }
        }
        match self.index.tf_batch_range(idx, batch_elements) {
            Some((shard_idx, local_start)) => {
                let batch_byte_len = batch_elements * 4;
                let bytes = mmap_as_slice(&self.shards[shard_idx]);
                proof {
                    assert(self.shard_data()[shard_idx as int] == mmap_view(self.shards@[shard_idx as int]));
                }
                let input = slice_subrange(bytes, local_start, local_start + batch_byte_len);
                let target = slice_subrange(bytes, local_start + 4, local_start + batch_byte_len + 4);
                Some((input, target))
            },
            None => None,
        }
    }

    /// Each shard read in place as `u32` words, `None` where its memory is not
    /// 4-byte aligned. A window starts a whole number of tokens into its shard,
    /// so it can be read in place exactly when its shard can.
    fn shards_as_u32(&self) -> (r: Vec<Option<&[u32]>>)
        requires
            self.wf(),
        ensures
            r@.len() == self.shard_data().len(),
            forall|k: int| 0 <= k < r@.len() ==> (#[trigger] r@[k] matches Some(w) ==> w@ == native_u32_words(
                self.shard_data()[k],
            )),
    {
        let mut out: Vec<Option<&[u32]>> = Vec::new();
        let mut k: usize = 0;
        while k < self.shards.len()
            invariant
                k <= self.shards@.len(),
                out@.len() == k,
                forall|j: int| 0 <= j < k ==> (#[trigger] out@[j] matches Some(w) ==> w@ == native_u32_words(
                    self.shard_data()[j],
                )),
            decreases self.shards@.len() - k,
        {
            proof {
                assert(self.shard_data()[k as int] == mmap_view(self.shards@[k as int]));
            }
            out.push(cast_u32_words(mmap_as_slice(&self.shards[k])));
            k = k + 1;
        }
        out
    }

    /// As [`Self::shards_as_u32`], for `i32` words.
    fn shards_as_i32(&self) -> (r: Vec<Option<&[i32]>>)
        requires
            self.wf(),
        ensures
            r@.len() == self.shard_data().len(),
            forall|k: int| 0 <= k < r@.len() ==> (#[trigger] r@[k] matches Some(w) ==> w@ == native_i32_words(
                self.shard_data()[k],
            )),
    {
        let mut out: Vec<Option<&[i32]>> = Vec::new();
        let mut k: usize = 0;
        while k < self.shards.len()
            invariant
                k <= self.shards@.len(),
                out@.len() == k,
                forall|j: int| 0 <= j < k ==> (#[trigger] out@[j] matches Some(w) ==> w@ == native_i32_words(
                    self.shard_data()[j],
                )),
            decreases self.shards@.len() - k,
        {
            proof {
                assert(self.shard_data()[k as int] == mmap_view(self.shards@[k as int]));
            }
            out.push(cast_i32_words(mmap_as_slice(&self.shards[k])));
            k = k + 1;
        }
        out
    }

    /// Windows of `num_elements` tokens read as `u32`. Each shard is read in
    /// place as words once, here; a shard that cannot be (its memory not
    /// 4-byte aligned) ends the scan when it is reached.
    pub fn iter_u32(&self, num_elements: usize) -> (r: ChunkedShardIter<'_, u32>)
        requires
            self.wf(),
        ensures
            r.wf(),
            r.loader() == *self,
            r.width() == num_elements,
            r.position() == (0int, 0int),
            r.u32_shards().len() == self.shard_data().len(),
    {
        let mut it = ChunkedShardIter::new(self, num_elements);
        it.u32_shards = self.shards_as_u32();
        proof {
            assert forall|k: int| 0 <= k < it.u32_shards().len() implies (#[trigger] it.u32_shards()[k] matches Some(w)
                ==> w == native_u32_words(it.loader().shard_data()[k])) by {
                assert(it.u32_shards()[k] == match it.u32_shards@[k] {
                    Some(w) => Some(w@),
                    None => None::<Seq<u32>>,
                });
            }
        }
        it
    }

    /// Windows of `num_elements` tokens as raw bytes.
    pub fn iter_u8(&self, num_elements: usize) -> (r: ChunkedShardIter<'_, u8>)
        requires
            self.wf(),
        ensures
            r.wf(),
            r.loader() == *self,
            r.width() == num_elements,
            r.position() == (0int, 0int),
    {
        ChunkedShardIter::new(self, num_elements)
    }

    /// Windows of `num_elements` tokens read as `i32`, each shard read in
    /// place once, here, as for [`Self::iter_u32`].
    pub fn iter_i32(&self, num_elements: usize) -> (r: ChunkedShardIter<'_, i32>)
        requires
            self.wf(),
        ensures
            r.wf(),
            r.loader() == *self,
            r.width() == num_elements,
            r.position() == (0int, 0int),
            r.i32_shards().len() == self.shard_data().len(),
    {
        let mut it = ChunkedShardIter::new(self, num_elements);
        it.i32_shards = self.shards_as_i32();
        proof {
            assert forall|k: int| 0 <= k < it.i32_shards().len() implies (#[trigger] it.i32_shards()[k] matches Some(w)
                ==> w == native_i32_words(it.loader().shard_data()[k])) by {
                assert(it.i32_shards()[k] == match it.i32_shards@[k] {
                    Some(w) => Some(w@),
                    None => None::<Seq<i32>>,
                });
            }
        }
        it
    }
}

/// The window a chunk scan yields from position `(f, i)`, and the position
/// after it: windows of `m` tokens never straddle shards; a remainder too short
/// for a window is skipped and the scan moves to the next shard.
pub open spec fn chunk_step(data: Seq<Seq<u8>>, lens: Seq<usize>, f: int, i: int, m: int) -> (Option<Seq<u8>>, (int, int)) {
    let (f2, i2) = settle(lens, f, i, m);
    if 0 <= f2 < lens.len() {
        (Some(data[f2].subrange(4 * i2, 4 * (i2 + m))), (f2, i2 + m))
    } else {
        (None, (f2, i2))
    }
}

/// An exhausted chunk scan stays exhausted: from where it stopped, the next
/// step yields nothing and does not move.
pub proof fn lemma_chunk_scan_stays_exhausted(data: Seq<Seq<u8>>, lens: Seq<usize>, f: int, i: int, m: int)
    requires
        f >= 0,
        i >= 0,
        chunk_step(data, lens, f, i, m).0 is None,
    ensures
        ({
            let p = chunk_step(data, lens, f, i, m).1;
            chunk_step(data, lens, p.0, p.1, m) == (None::<Seq<u8>>, p)
        }),
{
    lemma_settle(lens, f, i, m);
}

/// A scan with windows of zero tokens never ends: inside a shard it yields an
/// empty window and stays where it is.
pub proof fn lemma_zero_width_never_ends(data: Seq<Seq<u8>>, lens: Seq<usize>, f: int, i: int)
    requires
        describes(lens, data),
        0 <= f < lens.len(),
        0 <= i <= lens[f],
    ensures
        chunk_step(data, lens, f, i, 0) == (Some(Seq::<u8>::empty()), (f, i)),
{
    assert(4 * lens[f] == data[f].len());
    assert(data[f].subrange(4 * i, 4 * (i + 0)) =~= Seq::<u8>::empty());
}

/// The windows a chunk scan yields from `(f, i)` until it is exhausted.
pub open spec fn scan_chunks(data: Seq<Seq<u8>>, lens: Seq<usize>, f: int, i: int, m: int) -> Seq<Seq<u8>>
    decreases lens.len() - f, lens[f] - i,
{
    if m <= 0 || f < 0 || i < 0 {
        Seq::empty()
    } else {
        let (w, p) = chunk_step(data, lens, f, i, m);
        match w {
            Some(bytes) => {
                proof {
                    lemma_settle(lens, f, i, m);
                }
                seq![bytes] + scan_chunks(data, lens, p.0, p.1, m)
            },
            None => Seq::empty(),
        }
    }
}

/// Windows `from ..` of `m` tokens that fit in `shard`, in order; a tail
/// shorter than `m` tokens is left out.
pub open spec fn shard_chunks(shard: Seq<u8>, m: int, from: int) -> Seq<Seq<u8>> {
    Seq::new(
        ((shard.len() as int / 4) / m - from) as nat,
        |j: int| shard.subrange(4 * ((from + j) * m), 4 * ((from + j) * m + m)),
    )
}

/// The windows of `m` tokens of shards `f ..`, shard by shard.
pub open spec fn chunks_from(data: Seq<Seq<u8>>, f: int, m: int) -> Seq<Seq<u8>>
    decreases data.len() - f,
{
    if f < 0 || f >= data.len() {
        Seq::empty()
    } else {
        shard_chunks(data[f], m, 0) + chunks_from(data, f + 1, m)
    }
}

pub proof fn lemma_window_count(c: int, m: int, len: int)
    requires
        m > 0,
        c >= 0,
        len >= 0,
    ensures
        (c * m + m <= len) <==> (c < len / m),
        c <= len / m ==> c * m <= len,
{
    vstd::arithmetic::div_mod::lemma_fundamental_div_mod(len, m);
    vstd::arithmetic::div_mod::lemma_mod_pos_bound(len, m);
    let q = len / m;
    let r = len % m;
    vstd::arithmetic::mul::lemma_mul_is_commutative(m, q);
    assert(len == q * m + r && 0 <= r < m);
    if c < q {
        assert(c * m + m <= q * m) by (nonlinear_arith)
            requires
                c < q,
                m > 0,
        ;
    }
    if c >= q {
        assert(c * m >= q * m) by (nonlinear_arith)
            requires
                c >= q,
                m > 0,
        ;
    }
    if c <= q {
        assert(c * m <= q * m) by (nonlinear_arith)
            requires
                c <= q,
                m > 0,
        ;
    }
}

/// A full chunk scan over shards described by `lens` yields exactly the
/// shard-by-shard windows of `m` tokens.
pub proof fn lemma_scan_is_chunks(data: Seq<Seq<u8>>, lens: Seq<usize>, m: int)
    requires
        describes(lens, data),
        m > 0,
    ensures
        scan_chunks(data, lens, 0, 0, m) == chunks_from(data, 0, m),
{
    assert(0 * m == 0);
    if lens.len() > 0 {
        lemma_window_count(0, m, lens[0] as int);
        assert(4 * lens[0] == data[0].len());
    }
    lemma_scan_from(data, lens, 0, 0, m);
    if lens.len() > 0 {
        assert(chunks_from(data, 0, m) == shard_chunks(data[0], m, 0) + chunks_from(data, 1, m));
    }
}

/// The words of shards `f ..` in windows of `m` words, shard by shard; the
/// last `L % m` words of a shard of `L` words are left out.
pub open spec fn word_chunks_from(data: Seq<Seq<u8>>, f: int, m: int) -> Seq<Seq<u32>>
    decreases data.len() - f,
{
    if f < 0 || f >= data.len() {
        Seq::empty()
    } else {
        Seq::new(
            ((data[f].len() as int / 4) / m) as nat,
            |j: int| native_u32_words(data[f]).subrange(j * m, j * m + m),
        ) + word_chunks_from(data, f + 1, m)
    }
}

proof fn lemma_chunks_as_words(data: Seq<Seq<u8>>, f: int, m: int)
    requires
        m > 0,
        f >= 0,
    ensures
        chunks_from(data, f, m).map_values(|w: Seq<u8>| native_u32_words(w)) == word_chunks_from(data, f, m),
    decreases data.len() - f,
{
    if f < data.len() {
        lemma_chunks_as_words(data, f + 1, m);
        let shard = data[f];
        let len = shard.len() as int / 4;
        let here = shard_chunks(shard, m, 0);
        let words_here = Seq::new(
            (len / m) as nat,
            |j: int| native_u32_words(shard).subrange(j * m, j * m + m),
        );
        vstd::arithmetic::div_mod::lemma_div_pos_is_pos(len, m);
        assert forall|j: int| 0 <= j < here.len() implies #[trigger] native_u32_words(here[j]) == words_here[j] by {
            assert(j * m >= 0) by (nonlinear_arith)
                requires
                    j >= 0,
                    m > 0,
            ;
            lemma_window_count(j, m, len);
            assert((0 + j) * m == j * m);
            lemma_words_of_window(shard, j * m, m);
        }
        let rest = chunks_from(data, f + 1, m);
        assert(here.map_values(|w: Seq<u8>| native_u32_words(w)) =~= words_here);
        assert((here + rest).map_values(|w: Seq<u8>| native_u32_words(w)) =~= here.map_values(
            |w: Seq<u8>| native_u32_words(w),
        ) + rest.map_values(|w: Seq<u8>| native_u32_words(w)));
    } else {
        assert(chunks_from(data, f, m).map_values(|w: Seq<u8>| native_u32_words(w)) =~= Seq::<Seq<u32>>::empty());
    }
}

/// A full chunk scan with windows of `m > 0` tokens, read as words, yields
/// each shard's words in whole windows of `m`, shard by shard: what a `u32`
/// scan yields while its in-place reads succeed.
pub proof fn lemma_scan_is_word_chunks(data: Seq<Seq<u8>>, lens: Seq<usize>, m: int)
    requires
        describes(lens, data),
        m > 0,
    ensures
        scan_chunks(data, lens, 0, 0, m).map_values(|w: Seq<u8>| native_u32_words(w)) == word_chunks_from(data, 0, m),
{
    lemma_scan_is_chunks(data, lens, m);
    lemma_chunks_as_words(data, 0, m);
}

proof fn lemma_scan_from(data: Seq<Seq<u8>>, lens: Seq<usize>, f: int, c: int, m: int)
    requires
        describes(lens, data),
        m > 0,
        0 <= f,
        0 <= c,
        f < lens.len() ==> c <= (data[f].len() as int / 4) / m,
        f >= lens.len() ==> c == 0,
    ensures
        f < lens.len() ==> scan_chunks(data, lens, f, c * m, m) == shard_chunks(data[f], m, c) + chunks_from(data, f + 1, m),
        f >= lens.len() ==> scan_chunks(data, lens, f, c * m, m) == chunks_from(data, f, m),
    decreases lens.len() - f, lens[f] - c * m,
{
    assert(c * m >= 0) by (nonlinear_arith)
        requires
            c >= 0,
            m > 0,
    ;
    if f >= lens.len() {
        assert(c * m == 0);
        assert(scan_chunks(data, lens, f, c * m, m) =~= Seq::<Seq<u8>>::empty());
    } else {
        let len = lens[f] as int;
        assert(4 * lens[f] == data[f].len());
        assert(data[f].len() / 4 == len);
        lemma_window_count(c, m, len);
        if c * m + m <= len {
            let i2 = c * m;
            assert((c + 1) * m == c * m + m) by (nonlinear_arith);
            lemma_scan_from(data, lens, f, c + 1, m);
            let w = data[f].subrange(4 * i2, 4 * (i2 + m));
            assert(chunk_step(data, lens, f, i2, m) == (Some(w), (f, i2 + m)));
            let rest = shard_chunks(data[f], m, c + 1);
            assert(shard_chunks(data[f], m, c) =~= seq![w] + rest);
            assert(scan_chunks(data, lens, f, c * m, m) == seq![w] + scan_chunks(data, lens, f, (c + 1) * m, m));
            assert(scan_chunks(data, lens, f, c * m, m) =~= shard_chunks(data[f], m, c) + chunks_from(data, f + 1, m));
        } else {
            assert(c == len / m);
            assert(shard_chunks(data[f], m, c) =~= Seq::<Seq<u8>>::empty());
            assert(settle(lens, f, c * m, m) == settle(lens, f + 1, 0, m));
            lemma_scan_from(data, lens, f + 1, 0, m);
            assert(0 * m == 0);
            assert(chunk_step(data, lens, f, c * m, m) == chunk_step(data, lens, f + 1, 0, m));
            assert(scan_chunks(data, lens, f, c * m, m) == scan_chunks(data, lens, f + 1, 0, m));
            if f + 1 < lens.len() {
                lemma_window_count(0, m, lens[f + 1] as int);
                assert(4 * lens[f + 1] == data[f + 1].len());
            }
            assert(scan_chunks(data, lens, f, c * m, m) =~= shard_chunks(data[f], m, c) + chunks_from(data, f + 1, m));
        }
    }
}

/// A zero-copy scan over the loader's shards in windows of a fixed number of
/// tokens, yielding them as `T`.
pub struct ChunkedShardIter<'a, T> {
    dataloader: &'a PretokenizedDataLoader,
    /// Element position inside the current shard.
    current_idx: usize,
    current_file_idx: usize,
    num_elements: usize,
    /// For a scan yielding `u32`, each shard read in place as unsigned words
    /// (empty for other scans); `None` where the shard's memory could not be
    /// read in place.
    u32_shards: Vec<Option<&'a [u32]>>,
    /// The same for a scan yielding `i32`.
    i32_shards: Vec<Option<&'a [i32]>>,
    _marker: PhantomData<T>,
}

impl<'a, T> ChunkedShardIter<'a, T> {
    /// The loader scanned.
    pub closed spec fn loader(self) -> PretokenizedDataLoader {
        *self.dataloader
    }

    /// Current (shard, element) position.
    pub closed spec fn position(self) -> (int, int) {
        (self.current_file_idx as int, self.current_idx as int)
    }

    /// Tokens per window.
    pub closed spec fn width(self) -> usize {
        self.num_elements
    }

    /// The shards read in place as `u32` words for this scan.
    pub closed spec fn u32_shards(self) -> Seq<Option<Seq<u32>>> {
        self.u32_shards@.map_values(|o: Option<&'a [u32]>| match o {
            Some(w) => Some(w@),
            None => None,
        })
    }

    /// The shards read in place as `i32` words for this scan.
    pub closed spec fn i32_shards(self) -> Seq<Option<Seq<i32>>> {
        self.i32_shards@.map_values(|o: Option<&'a [i32]>| match o {
            Some(w) => Some(w@),
            None => None,
        })
    }

    /// The loader is well formed, and inside a shard the position lies within
    /// it, at 0 or past at least one whole window.
    pub open spec fn wf(self) -> bool {
        &&& self.loader().wf()
        &&& self.position().0 >= 0
        &&& self.position().1 >= 0
        &&& self.position().0 < self.loader().index().lengths().len() ==> {
            &&& self.position().1 <= self.loader().index().lengths()[self.position().0]
            &&& (self.position().1 == 0 || self.width() <= self.position().1)
        }
        &&& self.u32_shards().len() <= self.loader().shard_data().len()
        &&& forall|k: int| 0 <= k < self.u32_shards().len() ==> (#[trigger] self.u32_shards()[k] matches Some(w)
            ==> w == native_u32_words(self.loader().shard_data()[k]))
        &&& self.i32_shards().len() <= self.loader().shard_data().len()
        &&& forall|k: int| 0 <= k < self.i32_shards().len() ==> (#[trigger] self.i32_shards()[k] matches Some(w)
            ==> w == native_i32_words(self.loader().shard_data()[k]))
    }

    fn new(dataloader: &'a PretokenizedDataLoader, num_elements: usize) -> (r: Self)
        requires
            dataloader.wf(),
        ensures
            r.wf(),
            r.loader() == *dataloader,
            r.width() == num_elements,
            r.position() == (0int, 0int),
            r.u32_shards() == Seq::<Option<Seq<u32>>>::empty(),
            r.i32_shards() == Seq::<Option<Seq<i32>>>::empty(),
    {
        let r = ChunkedShardIter {
            dataloader,
            current_idx: 0,
            current_file_idx: 0,
            num_elements,
            u32_shards: Vec::new(),
            i32_shards: Vec::new(),
            _marker: PhantomData,
        };
        assert(r.u32_shards() =~= Seq::<Option<Seq<u32>>>::empty());
        assert(r.i32_shards() =~= Seq::<Option<Seq<i32>>>::empty());
        r
    }

    /// The next window as bytes (see [`chunk_step`]).
    fn next_window(&mut self) -> (r: Option<&'a [u8]>)
        requires
            old(self).wf(),
        ensures
            final(self).wf(),
            final(self).loader() == old(self).loader(),
            final(self).width() == old(self).width(),
            final(self).u32_shards() == old(self).u32_shards(),
            final(self).i32_shards() == old(self).i32_shards(),
            ({
                let (w, p) = chunk_step(
                    old(self).loader().shard_data(),
                    old(self).loader().index().lengths(),
                    old(self).position().0,
                    old(self).position().1,
                    old(self).width() as int,
                );
                &&& final(self).position() == p
                &&& match r {
                    Some(s) => w == Some(s@),
                    None => w is None,
                }
            }),
    {
        let loader: &'a PretokenizedDataLoader = self.dataloader;
        let ghost lens = loader.index().lengths();
        let ghost offs = loader.index().offsets();
        let m = self.num_elements;
        let (f, i) = loader.index.settle_window(self.current_file_idx, self.current_idx, m);
        proof {
            lemma_settle(lens, self.current_file_idx as int, self.current_idx as int, m as int);
        }
        let n = loader.shards.len();
        if f < n {
            proof {
                assert(offs[f as int + 1] == offs[f as int] + 4 * lens[f as int]);
                assert(loader.shard_data()[f as int] == mmap_view(loader.shards@[f as int]));
            }
            let bytes = mmap_as_slice(&loader.shards[f]);
            let start = i * 4;
            let window = slice_subrange(bytes, start, start + m * 4);
            self.current_file_idx = f;
            self.current_idx = i + m;
            Some(window)
        } else {
            self.current_file_idx = f;
            self.current_idx = i;
            None
        }
    }

    /// No window is left: the scan step yields nothing from here.
    pub open spec fn exhausted(self) -> bool {
        chunk_step(
            self.loader().shard_data(),
            self.loader().index().lengths(),
            self.position().0,
            self.position().1,
            self.width() as int,
        ).0 is None
    }

    /// Ends the scan: moves past the last shard.
    fn exhaust(&mut self)
        requires
            old(self).wf(),
        ensures
            final(self).wf(),
            final(self).loader() == old(self).loader(),
            final(self).width() == old(self).width(),
            final(self).position() == (old(self).loader().index().lengths().len() as int, 0int),
            final(self).exhausted(),
            final(self).u32_shards() == old(self).u32_shards(),
            final(self).i32_shards() == old(self).i32_shards(),
    {
        self.current_file_idx = self.dataloader.shards.len();
        self.current_idx = 0;
    }
}

impl<'a> ChunkedShardIter<'a, u8> {
    /// The next window of raw bytes.
    pub fn next(&mut self) -> (r: Option<&'a [u8]>)
        requires
            old(self).wf(),
        ensures
            final(self).wf(),
            r is None ==> final(self).exhausted(),
            final(self).loader() == old(self).loader(),
            final(self).width() == old(self).width(),
            ({
                let (w, p) = chunk_step(
                    old(self).loader().shard_data(),
                    old(self).loader().index().lengths(),
                    old(self).position().0,
                    old(self).position().1,
                    old(self).width() as int,
                );
                &&& final(self).position() == p
                &&& match r {
                    Some(s) => w == Some(s@),
                    None => w is None,
                }
            }),
    {
        self.next_window()
    }
}

impl<'a> ChunkedShardIter<'a, u32> {
    /// The next window, its tokens read as `u32` in place. The scan advances
    /// as for bytes, and a window is yielded whenever its shard was read in
    /// place when the scan was made; a shard whose memory could not be (not
    /// 4-byte aligned) ends the scan with `None` when it is reached.
    pub fn next(&mut self) -> (r: Option<&'a [u32]>)
        requires
            old(self).wf(),
        ensures
            final(self).wf(),
            final(self).loader() == old(self).loader(),
            final(self).width() == old(self).width(),
            final(self).u32_shards() == old(self).u32_shards(),
            ({
                let (w, p) = chunk_step(
                    old(self).loader().shard_data(),
                    old(self).loader().index().lengths(),
                    old(self).position().0,
                    old(self).position().1,
                    old(self).width() as int,
                );
                let shard = settle(
                    old(self).loader().index().lengths(),
                    old(self).position().0,
                    old(self).position().1,
                    old(self).width() as int,
                ).0;
                &&& match r {
                    Some(s) => w is Some && s@ == native_u32_words(w->0) && final(self).position() == p,
                    None => final(self).exhausted() && (w is None ==> final(self).position() == p),
                }
                &&& w is None ==> r is None
                &&& w is Some && shard < old(self).u32_shards().len() && old(self).u32_shards()[shard] is Some ==> r is Some
            }),
    {
        let loader: &'a PretokenizedDataLoader = self.dataloader;
        let ghost lens = loader.index().lengths();
        let ghost offs = loader.index().offsets();
        let ghost data = loader.shard_data();
        let m = self.num_elements;
        let (f, i) = loader.index.settle_window(self.current_file_idx, self.current_idx, m);
        proof {
            lemma_settle(lens, self.current_file_idx as int, self.current_idx as int, m as int);
        }
        let n = loader.shards.len();
        if f < n {
            if f < self.u32_shards.len() {
                let cached: Option<&'a [u32]> = self.u32_shards[f];
                match cached {
                    Some(words) => {
                        proof {
                            assert(self.u32_shards()[f as int] == Some(words@));
                            assert(words@ == native_u32_words(data[f as int]));
                            assert(4 * lens[f as int] == data[f as int].len());
                            lemma_words_of_window(data[f as int], i as int, m as int);
                        }
                        let window = slice_subrange(words, i, i + m);
                        self.current_file_idx = f;
                        self.current_idx = i + m;
                        return Some(window);
                    },
                    None => {},
                }
            }
            self.exhaust();
            None
        } else {
            self.current_file_idx = f;
            self.current_idx = i;
            None
        }
    }
}

impl<'a> ChunkedShardIter<'a, i32> {
    /// The next window, its tokens read as `i32` in place. The scan advances
    /// as for bytes, and a window is yielded whenever its shard was read in
    /// place when the scan was made; a shard whose memory could not be (not
    /// 4-byte aligned) ends the scan with `None` when it is reached.
    pub fn next(&mut self) -> (r: Option<&'a [i32]>)
        requires
            old(self).wf(),
        ensures
            final(self).wf(),
            final(self).loader() == old(self).loader(),
            final(self).width() == old(self).width(),
            final(self).i32_shards() == old(self).i32_shards(),
            ({
                let (w, p) = chunk_step(
                    old(self).loader().shard_data(),
                    old(self).loader().index().lengths(),
                    old(self).position().0,
                    old(self).position().1,
                    old(self).width() as int,
                );
                let shard = settle(
                    old(self).loader().index().lengths(),
                    old(self).position().0,
                    old(self).position().1,
                    old(self).width() as int,
                ).0;
                &&& match r {
                    Some(s) => w is Some && s@ == native_i32_words(w->0) && final(self).position() == p,
                    None => final(self).exhausted() && (w is None ==> final(self).position() == p),
                }
                &&& w is None ==> r is None
                &&& w is Some && shard < old(self).i32_shards().len() && old(self).i32_shards()[shard] is Some ==> r is Some
            }),
    {
        let loader: &'a PretokenizedDataLoader = self.dataloader;
        let ghost lens = loader.index().lengths();
        let ghost offs = loader.index().offsets();
        let ghost data = loader.shard_data();
        let m = self.num_elements;
        let (f, i) = loader.index.settle_window(self.current_file_idx, self.current_idx, m);
        proof {
            lemma_settle(lens, self.current_file_idx as int, self.current_idx as int, m as int);
        }
        let n = loader.shards.len();
        if f < n {
            if f < self.i32_shards.len() {
                let cached: Option<&'a [i32]> = self.i32_shards[f];
                match cached {
                    Some(words) => {
                        proof {
                            assert(self.i32_shards()[f as int] == Some(words@));
                            assert(words@ == native_i32_words(data[f as int]));
                            assert(4 * lens[f as int] == data[f as int].len());
                            lemma_i32_words_of_window(data[f as int], i as int, m as int);
                        }
                        let window = slice_subrange(words, i, i + m);
                        self.current_file_idx = f;
                        self.current_idx = i + m;
                        return Some(window);
                    },
                    None => {},
                }
            }
            self.exhaust();
            None
        } else {
            self.current_file_idx = f;
            self.current_idx = i;
            None
        }
    }
}

} // verus!
