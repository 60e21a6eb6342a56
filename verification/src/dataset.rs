//! The binary image of the reference vectors, and the dataset read from it.
//!
//! An image holds a header of 64 bytes, which starts with the number of records in
//! little-endian order and ends in zeros, then the vectors of `PADDED_DIMS` bytes
//! each, then one byte of label per record.

use vstd::prelude::*;

verus! {

/// The dimensions of a vector.
pub const DIMS: usize = 14;

/// The bytes that a vector takes in the image.
pub const PADDED_DIMS: usize = 16;

/// The byte that fills a vector up to `PADDED_DIMS`.
pub const PADDING: u8 = 128;

/// The bytes before the first vector.
pub const HEADER_LEN: usize = 64;

/// The number of parts that a search is split into.
pub const NUM_CHUNKS: usize = 16;

/// A reference vector, padded, with its label.
#[verifier::ext_equal]
pub struct Record {
    pub vector: Seq<u8>,
    pub label: u8,
}

/// A reference as it is handed in: its quantized vector and the name of its class.
pub struct RefEntry {
    pub vector: Vec<u8>,
    pub label: String,
}

impl RefEntry {
    /// The record that an image holds for the entry.
    pub open spec fn record(&self) -> Record {
        Record { vector: padded(self.vector@), label: label_byte(self.label@) }
    }
}

/// A vector followed by two bytes of padding.
pub open spec fn padded(vector: Seq<u8>) -> Seq<u8> {
    vector + seq![PADDING, PADDING]
}

/// The byte for the name of a class: 1 for a fraud, 0 for anything else.
pub open spec fn label_byte(label: Seq<char>) -> u8 {
    if label == "fraud"@ {
        1
    } else {
        0
    }
}

/// The little-endian bytes of a count.
pub open spec fn count_bytes(count: u32) -> Seq<u8> {
    seq![
        (count % 256) as u8,
        (count / 256 % 256) as u8,
        (count / 65536 % 256) as u8,
        (count / 16777216) as u8,
    ]
}

/// The header for a number of records, of which it holds the low 32 bits.
pub open spec fn header_bytes(count: nat) -> Seq<u8> {
    count_bytes(count as u32) + Seq::new((HEADER_LEN - 4) as nat, |i: int| 0u8)
}

/// The vectors of entries, padded, one after the other.
pub open spec fn vector_bytes(entries: Seq<RefEntry>) -> Seq<u8>
    decreases entries.len(),
{
    if entries.len() == 0 {
        Seq::empty()
    } else {
        vector_bytes(entries.drop_last()) + padded(entries.last().vector@)
    }
}

/// The label bytes of entries.
pub open spec fn label_bytes(entries: Seq<RefEntry>) -> Seq<u8> {
    Seq::new(entries.len(), |i: int| label_byte(entries[i].label@))
}

/// The image of entries.
pub open spec fn image_of(entries: Seq<RefEntry>) -> Seq<u8> {
    header_bytes(entries.len()) + vector_bytes(entries) + label_bytes(entries)
}

/// The number of records that the header of an image states.
pub open spec fn image_count(image: Seq<u8>) -> nat {
    (image[0] + 256 * image[1] + 65536 * image[2] + 16777216 * image[3]) as nat
}

/// Where the labels of an image start.
pub open spec fn labels_offset(image: Seq<u8>) -> int {
    HEADER_LEN + image_count(image) * PADDED_DIMS
}

/// Whether the bytes are long enough for the header and the records it states.
pub open spec fn is_image(image: Seq<u8>) -> bool {
    &&& image.len() >= HEADER_LEN
    &&& image.len() >= labels_offset(image) + image_count(image)
}

/// The records of an image.
pub open spec fn image_records(image: Seq<u8>) -> Seq<Record> {
    Seq::new(
        image_count(image),
        |i: int|
            Record {
                vector: image.subrange(
                    HEADER_LEN + i * PADDED_DIMS,
                    HEADER_LEN + i * PADDED_DIMS + PADDED_DIMS,
                ),
                label: image[labels_offset(image) + i],
            },
    )
}

/// With vectors of `DIMS` bytes every record takes `PADDED_DIMS` bytes.
proof fn lemma_vector_bytes(entries: Seq<RefEntry>)
    requires
        forall|i: int| 0 <= i < entries.len() ==> (#[trigger] entries[i]).vector@.len() == DIMS,
    ensures
        vector_bytes(entries).len() == entries.len() * PADDED_DIMS,
        forall|i: int|
            0 <= i < entries.len() ==> vector_bytes(entries).subrange(
                i * PADDED_DIMS,
                i * PADDED_DIMS + PADDED_DIMS,
            ) == padded((#[trigger] entries[i]).vector@),
    decreases entries.len(),
{
    if entries.len() > 0 {
        let front = entries.drop_last();
        assert forall|i: int| 0 <= i < front.len() implies (#[trigger] front[i]).vector@.len()
            == DIMS by {
            assert(front[i] == entries[i]);
        }
        lemma_vector_bytes(front);
        let n = front.len() as int;
        assert(entries.last() == entries[n]);
        assert forall|i: int| 0 <= i < entries.len() implies vector_bytes(entries).subrange(
            i * PADDED_DIMS,
            i * PADDED_DIMS + PADDED_DIMS,
        ) == padded((#[trigger] entries[i]).vector@) by {
            if i < n {
                assert(front[i] == entries[i]);
                assert(vector_bytes(entries).subrange(
                    i * PADDED_DIMS,
                    i * PADDED_DIMS + PADDED_DIMS,
                ) =~= vector_bytes(front).subrange(
                    i * PADDED_DIMS,
                    i * PADDED_DIMS + PADDED_DIMS,
                ));
            } else {
                assert(vector_bytes(entries).subrange(
                    n * PADDED_DIMS,
                    n * PADDED_DIMS + PADDED_DIMS,
                ) =~= padded(entries[n].vector@));
            }
        }
    }
}

/// Reading an image gives back what was laid out in it: for vectors of `DIMS`
/// bytes, as many as the header can count, the image of entries is well formed
/// and its records are those of the entries, in their order.
pub proof fn image_round_trip(entries: Seq<RefEntry>)
    requires
        entries.len() <= u32::MAX,
        forall|i: int| 0 <= i < entries.len() ==> (#[trigger] entries[i]).vector@.len() == DIMS,
    ensures
        is_image(image_of(entries)),
        image_of(entries).len() == HEADER_LEN + entries.len() * (PADDED_DIMS + 1),
        image_records(image_of(entries)) == Seq::new(
            entries.len(),
            |i: int| entries[i].record(),
        ),
{
    let image = image_of(entries);
    let n = entries.len();
    lemma_vector_bytes(entries);
    assert(image_count(image) == n) by {
        let count = n as u32;
        assert(image[0] == (count % 256) as u8);
        assert(image[1] == (count / 256 % 256) as u8);
        assert(image[2] == (count / 65536 % 256) as u8);
        assert(image[3] == (count / 16777216) as u8);
    }
    let records = Seq::new(n, |i: int| entries[i].record());
    assert forall|i: int| 0 <= i < n implies #[trigger] image_records(image)[i]
        == records[i] by {
        assert(entries[i].vector@.len() == DIMS);
        assert(image.subrange(
            HEADER_LEN + i * PADDED_DIMS,
            HEADER_LEN + i * PADDED_DIMS + PADDED_DIMS,
        ) =~= vector_bytes(entries).subrange(i * PADDED_DIMS, i * PADDED_DIMS + PADDED_DIMS));
        assert(image[labels_offset(image) + i] == label_bytes(entries)[i]);
    }
    assert(image_records(image) =~= records);
}

/// Lays out the image of reference entries.
///
/// The header holds the low 32 bits of the number of entries. A vector is taken
/// as it is, whatever its length, and followed by two bytes of padding.
pub fn preprocess(entries: &Vec<RefEntry>) -> (out: Vec<u8>)
    ensures
        out@ == image_of(entries@),
{
    let count: u32 = #[verifier::truncate]
    (entries.len() as u32);
    let mut out: Vec<u8> = Vec::new();
    out.push((count % 256) as u8);
    out.push((count / 256 % 256) as u8);
    out.push((count / 65536 % 256) as u8);
    out.push((count / 16777216) as u8);
    let mut h: usize = 4;
    while h < HEADER_LEN
        invariant
            4 <= h <= HEADER_LEN,
            out@ == count_bytes(count) + Seq::new((h - 4) as nat, |i: int| 0u8),
        decreases HEADER_LEN - h,
    {
        out.push(0);
        proof {
            assert(out@ =~= count_bytes(count) + Seq::new((h + 1 - 4) as nat, |i: int| 0u8));
        }
        h += 1;
    }
    let ghost header = header_bytes(entries@.len());
    let mut i: usize = 0;
    assert(entries@.take(0) =~= Seq::empty());
    assert(out@ =~= header + vector_bytes(entries@.take(0)));
    while i < entries.len()
        invariant
            i <= entries.len(),
            out@ == header + vector_bytes(entries@.take(i as int)),
        decreases entries.len() - i,
    {
        let ghost before = out@;
        let vector: &Vec<u8> = &entries[i].vector;
        let mut j: usize = 0;
        while j < vector.len()
            invariant
                j <= vector.len(),
                out@ == before + vector@.take(j as int),
            decreases vector.len() - j,
        {
            out.push(vector[j]);
            proof {
                assert(out@ =~= before + vector@.take(j + 1));
            }
            j += 1;
        }
        out.push(PADDING);
        out.push(PADDING);
        proof {
            assert(vector@.take(j as int) =~= vector@);
            assert(out@ =~= before + padded(vector@));
            assert(entries@.take(i + 1).drop_last() =~= entries@.take(i as int));
            assert(out@ =~= header + vector_bytes(entries@.take(i + 1)));
        }
        i += 1;
    }
    assert(entries@.take(i as int) =~= entries@);
    let ghost body = out@;
    let fraud: String = "fraud".to_string();
    let mut k: usize = 0;
    assert(entries@.take(0) =~= Seq::empty());
    while k < entries.len()
        invariant
            k <= entries.len(),
            fraud@ == "fraud"@,
            out@ == body + label_bytes(entries@.take(k as int)),
        decreases entries.len() - k,
    {
        let byte: u8 = if entries[k].label == fraud {
            1
        } else {
            0
        };
        out.push(byte);
        proof {
            assert(out@ =~= body + label_bytes(entries@.take(k + 1)));
        }
        k += 1;
    }
    assert(entries@.take(k as int) =~= entries@);
    out
}

/// Whether the bytes are long enough for the header and the records it states.
pub fn image_is_complete(data: &[u8]) -> (complete: bool)
    ensures
        complete == is_image(data@),
{
    if data.len() < HEADER_LEN {
        return false;
    }
    let count: u32 = stated_count(data);
    data.len() as u64 >= HEADER_LEN as u64 + count as u64 * PADDED_DIMS as u64 + count as u64
}

/// The number of records that the header states.
fn stated_count(data: &[u8]) -> (count: u32)
    requires
        data@.len() >= HEADER_LEN,
    ensures
        count == image_count(data@),
{
    data[0] as u32 + 256 * (data[1] as u32) + 65536 * (data[2] as u32) + 16777216 * (
    data[3] as u32)
}

/// The bytes of a memory page.
pub const PAGE: usize = 4096;

/// The sum, modulo 256, of the first byte of each of the first `n` pages.
pub open spec fn page_sum(data: Seq<u8>, n: int) -> int
    decreases n,
{
    if n <= 0 {
        0
    } else {
        (page_sum(data, n - 1) + data[(n - 1) * PAGE]) % 256
    }
}

/// Reads a byte of every page, in order, so that all pages are in memory before
/// the first search. Returns the sum of the bytes modulo 256.
pub fn touch_pages(data: &[u8]) -> (sum: u8)
    ensures
        sum == page_sum(data@, (data@.len() + PAGE - 1) / PAGE as int),
{
    let len: usize = data.len();
    let pages: usize = if len % PAGE == 0 {
        len / PAGE
    } else {
        len / PAGE + 1
    };
    let mut sum: u8 = 0;
    let mut p: usize = 0;
    while p < pages
        invariant
            len == data@.len(),
            p <= pages,
            pages == (data@.len() + PAGE - 1) / PAGE as int,
            sum == page_sum(data@, p as int),
        decreases pages - p,
    {
        sum = sum.wrapping_add(data[p * PAGE]);
        p += 1;
    }
    sum
}

/// `std::hint::black_box` is documented as an identity function; all it adds is a
/// hint to the compiler not to drop the computation of its argument.
pub assume_specification<T>[ std::hint::black_box::<T> ](dummy: T) -> (same: T)
    ensures
        same == dummy,
;

/// A part of the dataset that is searched in one go: the padded vectors of some
/// consecutive records, and their labels.
pub struct Chunk<'a> {
    pub vectors: &'a [u8],
    pub labels: &'a [u8],
    pub count: usize,
}

impl<'a> Chunk<'a> {
    /// The vectors and the labels have the length that `count` asks for.
    pub open spec fn wf(&self) -> bool {
        &&& self.vectors@.len() == self.count * PADDED_DIMS
        &&& self.labels@.len() == self.count
    }
}

impl<'a> View for Chunk<'a> {
    type V = Seq<Record>;

    open spec fn view(&self) -> Seq<Record> {
        Seq::new(
            self.count as nat,
            |i: int|
                Record {
                    vector: self.vectors@.subrange(
                        i * PADDED_DIMS,
                        i * PADDED_DIMS + PADDED_DIMS,
                    ),
                    label: self.labels@[i],
                },
        )
    }
}

/// The records of chunks, one chunk after the other.
pub open spec fn chunk_records(chunks: Seq<Chunk>) -> Seq<Record>
    decreases chunks.len(),
{
    if chunks.len() == 0 {
        Seq::empty()
    } else {
        chunk_records(chunks.drop_last()) + chunks.last()@
    }
}

/// How many records each chunk has: `NUM_CHUNKS` parts of one size, of which the
/// last takes what the division leaves over, and no empty part.
pub open spec fn chunk_counts(count: nat) -> Seq<nat> {
    if count == 0 {
        Seq::empty()
    } else if count < NUM_CHUNKS {
        seq![count]
    } else {
        let size = count / NUM_CHUNKS as nat;
        Seq::new(
            NUM_CHUNKS as nat,
            |c: int|
                if c == NUM_CHUNKS - 1 {
                    (count - (NUM_CHUNKS - 1) * size) as nat
                } else {
                    size
                },
        )
    }
}

/// The reference records, split into the chunks that are searched side by side.
pub struct Dataset<'a> {
    pub count: usize,
    pub chunks: Vec<Chunk<'a>>,
}

impl<'a> View for Dataset<'a> {
    type V = Seq<Record>;

    open spec fn view(&self) -> Seq<Record> {
        chunk_records(self.chunks@)
    }
}

impl<'a> Dataset<'a> {
    /// The chunks are well formed and together hold `count` records.
    pub open spec fn wf(&self) -> bool {
        &&& forall|c: int| 0 <= c < self.chunks@.len() ==> (#[trigger] self.chunks@[c]).wf()
        &&& self.count == self@.len()
    }

    /// Reads the dataset from the bytes of an image, such as a mapped file, without
    /// copying them. Bytes after the last label are ignored.
    pub fn from_mmap(data: &'a [u8]) -> (ds: Dataset<'a>)
        requires
            is_image(data@),
        ensures
            ds.wf(),
            ds.count == image_count(data@),
            ds@ == image_records(data@),
            ds.chunks@.len() == chunk_counts(ds.count as nat).len(),
            forall|c: int|
                0 <= c < ds.chunks@.len() ==> (#[trigger] ds.chunks@[c]).count == chunk_counts(
                    ds.count as nat,
                )[c],
    {
        assert(data@.len() == data.len());
        let count: usize = stated_count(data) as usize;
        let voff: usize = HEADER_LEN;
        let loff: usize = voff + count * PADDED_DIMS;
        let vectors: &'a [u8] = &data[voff..loff];
        let labels: &'a [u8] = &data[loff..loff + count];

        std::hint::black_box(touch_pages(data));

        let chunk_size: usize = count / NUM_CHUNKS;
        let ghost records = image_records(data@);
        let mut chunks: Vec<Chunk<'a>> = Vec::new();
        let mut c: usize = 0;
        let mut start: usize = 0;
        while c < NUM_CHUNKS
            invariant
                c <= NUM_CHUNKS,
                count == image_count(data@),
                records == image_records(data@),
                is_image(data@),
                data@.len() <= usize::MAX,
                vectors@ == data@.subrange(HEADER_LEN as int, labels_offset(data@)),
                labels@ == data@.subrange(labels_offset(data@), labels_offset(data@) + count),
                chunk_size == count / NUM_CHUNKS,
                start == if c == NUM_CHUNKS {
                    count as int
                } else {
                    c * chunk_size
                },
                forall|i: int| 0 <= i < chunks@.len() ==> (#[trigger] chunks@[i]).wf(),
                chunk_records(chunks@) == records.take(start as int),
                chunks@.len() == if chunk_size > 0 {
                    c as int
                } else if c == NUM_CHUNKS && count > 0 {
                    1
                } else {
                    0
                },
                forall|i: int|
                    0 <= i < chunks@.len() ==> (#[trigger] chunks@[i]).count == chunk_counts(
                        count as nat,
                    )[i],
            decreases NUM_CHUNKS - c,
        {
            assert(c * chunk_size <= (NUM_CHUNKS - 1) * chunk_size) by (nonlinear_arith)
                requires
                    c <= NUM_CHUNKS - 1,
            ;
            assert((c + 1) * chunk_size == c * chunk_size + chunk_size) by (nonlinear_arith);
            let end: usize = if c == NUM_CHUNKS - 1 {
                count
            } else {
                start + chunk_size
            };
            let chunk_count: usize = end - start;
            if chunk_count > 0 {
                let chunk: Chunk<'a> = Chunk {
                    vectors: &vectors[start * PADDED_DIMS..end * PADDED_DIMS],
                    labels: &labels[start..end],
                    count: chunk_count,
                };
                let ghost before = chunks@;
                chunks.push(chunk);
                proof {
                    assert(chunks@.drop_last() =~= before);
                    assert forall|i: int| 0 <= i < chunk_count implies #[trigger] chunk@[i]
                        == records[start + i] by {
                        assert(chunk@[i].vector =~= records[start + i].vector);
                    }
                    assert(chunk_records(chunks@) =~= records.take(end as int));
                }
            }
            start = end;
            c += 1;
        }
        assert(records.take(count as int) =~= records);
        Dataset { count, chunks }
    }
}

/// The image of vectors of 14 bytes, byte by byte: the count in little-endian order and
/// zeros up to 64 bytes, then 16 bytes for each vector, of which the last two are 128,
/// then one byte for each label, which is 1 for a fraud and 0 for anything else.
pub proof fn image_byte_by_byte(entries: &Vec<RefEntry>, out: Vec<u8>)
    requires
        entries@.len() <= u32::MAX,
        forall|i: int| 0 <= i < entries@.len() ==> (#[trigger] entries@[i]).vector@.len() == 14,
        call_ensures(preprocess, (entries,), out),
    ensures
        out@.len() == 64 + 17 * entries@.len(),
        out@[0] + 256 * out@[1] + 65536 * out@[2] + 16777216 * out@[3] == entries@.len(),
        forall|h: int| 4 <= h < 64 ==> #[trigger] out@[h] == 0,
        forall|i: int|
            0 <= i < entries@.len() ==> out@.subrange(64 + 16 * i, 80 + 16 * i) == (
            #[trigger] entries@[i]).vector@ + seq![128u8, 128u8],
        forall|i: int|
            0 <= i < entries@.len() ==> out@[64 + 16 * entries@.len() + i] == if (
            #[trigger] entries@[i]).label@ == "fraud"@ {
                1u8
            } else {
                0
            },
{
    let n = entries@.len();
    image_round_trip(entries@);
    lemma_vector_bytes(entries@);
    assert forall|i: int| 0 <= i < n implies out@.subrange(64 + 16 * i, 80 + 16 * i) == (
    #[trigger] entries@[i]).vector@ + seq![128u8, 128u8] by {
        let vectors = vector_bytes(entries@);
        assert(vectors.subrange(i * PADDED_DIMS, i * PADDED_DIMS + PADDED_DIMS) == padded(
            entries@[i].vector@,
        ));
        assert(out@.subrange(64 + 16 * i, 80 + 16 * i) =~= vectors.subrange(
            i * PADDED_DIMS,
            i * PADDED_DIMS + PADDED_DIMS,
        ));
    }
    assert forall|i: int| 0 <= i < n implies out@[64 + 16 * n + i] == if (
    #[trigger] entries@[i]).label@ == "fraud"@ {
        1u8
    } else {
        0
    } by {
        assert(out@[64 + 16 * n + i] == label_bytes(entries@)[i]);
    }
    assert(image_count(out@) == n) by {
        assert(image_records(out@).len() == n);
    }
}

/// Nothing is laid out as a header of zeros, and one more entry adds its vector, whatever
/// its length, and two bytes of padding behind the other vectors, and its label behind
/// the other labels.
pub proof fn one_more_entry_in_an_image(
    entries: &Vec<RefEntry>,
    more: &Vec<RefEntry>,
    e: RefEntry,
    out: Vec<u8>,
    out2: Vec<u8>,
)
    requires
        more@ == entries@.push(e),
        call_ensures(preprocess, (entries,), out),
        call_ensures(preprocess, (more,), out2),
    ensures
        call_requires(preprocess, (entries,)),
        entries@.len() == 0 ==> out@ == Seq::new(64, |i: int| 0u8),
        out@.len() >= 64 + entries@.len(),
        ({
            let labels = out@.len() - entries@.len();
            let label: u8 = if e.label@ == "fraud"@ {
                1
            } else {
                0
            };
            out2@.skip(64) == out@.subrange(64, labels) + e.vector@ + seq![128u8, 128u8]
                + out@.skip(labels) + seq![label]
        }),
        forall|h: int| 4 <= h < 64 ==> #[trigger] out2@[h] == 0,
{
    let n = entries@.len();
    let labels = out@.len() - n;
    assert(more@.drop_last() =~= entries@);
    assert(label_bytes(more@) =~= label_bytes(entries@).push(label_byte(e.label@)));
    assert(out@.subrange(64, labels) =~= vector_bytes(entries@));
    assert(out@.skip(labels) =~= label_bytes(entries@));
    assert(out2@.skip(64) =~= vector_bytes(more@) + label_bytes(more@));
    if n == 0 {
        assert(0nat as u32 == 0u32);
        assert(out@ =~= Seq::new(64, |i: int| 0u8));
    }
}

/// The bytes of an image, as a dataset has them: as many records as the first four bytes
/// state, each with the 16 bytes of its vector and the byte of its label.
pub proof fn dataset_byte_by_byte(data: &[u8], ds: Dataset)
    requires
        call_ensures(Dataset::from_mmap, (data,), ds),
    ensures
        ds.wf(),
        ({
            let n = data@[0] + 256 * data@[1] + 65536 * data@[2] + 16777216 * data@[3];
            &&& ds.count == n
            &&& ds@.len() == n
            &&& forall|i: int|
                0 <= i < n ==> {
                    &&& (#[trigger] ds@[i]).vector == data@.subrange(64 + 16 * i, 80 + 16 * i)
                    &&& ds@[i].label == data@[64 + 16 * n + i]
                }
        }),
{
    let n = image_count(data@) as int;
    assert forall|i: int| 0 <= i < n implies {
        &&& (#[trigger] ds@[i]).vector == data@.subrange(64 + 16 * i, 80 + 16 * i)
        &&& ds@[i].label == data@[64 + 16 * n + i]
    } by {
        assert(ds@[i] == image_records(data@)[i]);
    }
}

/// Exactly the bytes that are long enough for the header, and for 17 bytes for each of
/// the records that it states, are an image, and every image can be read.
pub proof fn which_bytes_are_an_image(data: &[u8], complete: bool)
    requires
        call_ensures(image_is_complete, (data,), complete),
    ensures
        call_requires(image_is_complete, (data,)),
        complete <==> data@.len() >= 64 && data@.len() >= 64 + 17 * (data@[0] + 256 * data@[1]
            + 65536 * data@[2] + 16777216 * data@[3]),
        complete ==> call_requires(Dataset::from_mmap, (data,)),
{
}

/// What was laid out is read again: every record has the bytes of its entry, two bytes
/// of padding, and a label of 1 exactly if the entry is a fraud.
pub proof fn laid_out_entries_are_read_again(
    entries: &Vec<RefEntry>,
    out: Vec<u8>,
    data: &[u8],
    ds: Dataset,
)
    requires
        entries@.len() <= u32::MAX,
        forall|i: int| 0 <= i < entries@.len() ==> (#[trigger] entries@[i]).vector@.len() == 14,
        call_ensures(preprocess, (entries,), out),
        data@ == out@,
        call_ensures(Dataset::from_mmap, (data,), ds),
    ensures
        call_requires(Dataset::from_mmap, (data,)),
        ds@.len() == entries@.len(),
        forall|i: int|
            0 <= i < entries@.len() ==> {
                &&& (#[trigger] ds@[i]).vector == entries@[i].vector@ + seq![128u8, 128u8]
                &&& ds@[i].label == if entries@[i].label@ == "fraud"@ {
                    1u8
                } else {
                    0
                }
            },
{
    image_round_trip(entries@);
    assert forall|i: int| 0 <= i < entries@.len() implies {
        &&& (#[trigger] ds@[i]).vector == entries@[i].vector@ + seq![128u8, 128u8]
        &&& ds@[i].label == if entries@[i].label@ == "fraud"@ {
            1u8
        } else {
            0
        }
    } by {
        assert(ds@[i] == entries@[i].record());
    }
}

/// The parts that a dataset is searched in: none for no records, one for fewer than 16,
/// and otherwise 16, of which all but the last have a sixteenth, rounded down, and the
/// last has the rest.
pub proof fn parts_of_a_dataset(data: &[u8], ds: Dataset)
    requires
        call_ensures(Dataset::from_mmap, (data,), ds),
    ensures
        ds.count == 0 ==> ds.chunks@.len() == 0,
        0 < ds.count < 16 ==> ds.chunks@.len() == 1 && ds.chunks@[0].count == ds.count,
        ds.count >= 16 ==> {
            &&& ds.chunks@.len() == 16
            &&& forall|c: int|
                0 <= c < 15 ==> 16 * (#[trigger] ds.chunks@[c]).count <= ds.count < 16
                    * ds.chunks@[c].count + 16
            &&& ds.chunks@[15].count == ds.count - 15 * ds.chunks@[0].count
        },
{
    if ds.count >= 16 {
        let size = (ds.count as nat) / 16;
        assert forall|c: int| 0 <= c < 15 implies 16 * (#[trigger] ds.chunks@[c]).count
            <= ds.count < 16 * ds.chunks@[c].count + 16 by {
            assert(ds.chunks@[c].count == size);
        }
        assert(ds.chunks@[0].count == size);
    }
}

/// The records of a part are cut from its vectors and labels, and the records of parts
/// are those of one part after the other.
pub proof fn records_of_parts(chunks: Seq<Chunk>, chunk: Chunk, i: int)
    requires
        chunk.wf(),
        0 <= i < chunk.count,
    ensures
        chunk@.len() == chunk.count,
        chunk@[i].vector == chunk.vectors@.subrange(16 * i, 16 * i + 16),
        chunk@[i].label == chunk.labels@[i],
        chunk_records(Seq::empty()) == Seq::<Record>::empty(),
        chunk_records(chunks.push(chunk)) == chunk_records(chunks) + chunk@,
{
    assert(chunks.push(chunk).drop_last() =~= chunks);
}

/// The sum over the pages adds the first byte of one more page, modulo 256, and looks at
/// these bytes alone.
proof fn lemma_page_sum(a: Seq<u8>, b: Seq<u8>, n: int, p: int)
    requires
        0 <= p < n,
        forall|q: int| 0 <= q < n && q != p ==> a[q * PAGE] == #[trigger] b[q * PAGE],
    ensures
        (page_sum(b, n) - page_sum(a, n) - (b[p * PAGE] - a[p * PAGE])) % 256 == 0,
    decreases n,
{
    if p == n - 1 {
        lemma_page_sum_same(a, b, n - 1);
    } else {
        lemma_page_sum(a, b, n - 1, p);
        assert(a[(n - 1) * PAGE] == b[(n - 1) * PAGE]);
    }
}

proof fn lemma_page_sum_same(a: Seq<u8>, b: Seq<u8>, n: int)
    requires
        forall|q: int| 0 <= q < n ==> a[q * PAGE] == #[trigger] b[q * PAGE],
    ensures
        page_sum(b, n) == page_sum(a, n),
    decreases n,
{
    if n > 0 {
        lemma_page_sum_same(a, b, n - 1);
        assert(a[(n - 1) * PAGE] == b[(n - 1) * PAGE]);
    }
}

proof fn lemma_page_sum_zero(a: Seq<u8>, n: int)
    requires
        forall|q: int| 0 <= q < n ==> #[trigger] a[q * PAGE] == 0,
    ensures
        page_sum(a, n) == 0,
    decreases n,
{
    if n > 0 {
        lemma_page_sum_zero(a, n - 1);
        assert(a[(n - 1) * PAGE] == 0);
    }
}

/// The first byte of every page of 4096 bytes counts, with its value modulo 256, and no
/// other byte does.
pub proof fn first_bytes_of_pages_count(a: &[u8], b: &[u8], i: int, x: u8, y: u8)
    requires
        a@.len() == b@.len(),
        0 <= i < a@.len(),
        forall|j: int| 0 <= j < a@.len() && j != i ==> a@[j] == b@[j],
        call_ensures(touch_pages, (a,), x),
        call_ensures(touch_pages, (b,), y),
    ensures
        i % 4096 != 0 ==> y == x,
        i % 4096 == 0 ==> (y - x - (b@[i] - a@[i])) % 256 == 0,
{
    let n = (a@.len() + PAGE - 1) / PAGE as int;
    assert forall|q: int| 0 <= q < n && q * PAGE != i implies a@[q * PAGE]
        == #[trigger] b@[q * PAGE] by {
        assert(0 <= q * PAGE < a@.len());
    }
    if i % 4096 != 0 {
        lemma_page_sum_same(a@, b@, n);
    } else {
        let p = i / 4096;
        assert(p * PAGE == i);
        lemma_page_sum(a@, b@, n, p);
    }
}

/// Pages that start with 0 add up to 0.
pub proof fn pages_of_zeros_add_up_to_zero(a: &[u8], x: u8)
    requires
        forall|j: int| 0 <= j < a@.len() ==> a@[j] == 0,
        call_ensures(touch_pages, (a,), x),
    ensures
        x == 0,
{
    let n = (a@.len() + PAGE - 1) / PAGE as int;
    assert forall|q: int| 0 <= q < n implies #[trigger] a@[q * PAGE] == 0 by {
        assert(0 <= q * PAGE < a@.len());
    }
    lemma_page_sum_zero(a@, n);
}

} // verus!
