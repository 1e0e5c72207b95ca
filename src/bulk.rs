//! Parameters of the sort/merge pipeline, and how a stream of documents is
//! cut into chunks of bounded size.
use grenad::CompressionType;
use vstd::prelude::*;

verus! {

/// `grenad::CompressionType`, carried through to the chunk writers.
#[verifier::external_type_specification]
#[verifier::external_body]
pub struct ExCompressionType(CompressionType);

/// Relies on `grenad::CompressionType::None`: chunks are not compressed.
#[verifier::external_body]
fn compression_none() -> (r: CompressionType) {
    CompressionType::None
}

/// Relies on `rayon::current_num_threads`: the number of threads of the
/// current pool, or of the global one outside any pool; a pool is built
/// with at least one thread.
#[verifier::external_body]
fn current_num_threads() -> (r: usize)
    ensures
        r >= 1,
{
    rayon::current_num_threads()
}

/// How the chunks of the pipeline are written, and the bounds that make
/// its sorters spill.
#[derive(Clone, Copy, Debug)]
pub struct GrenadParameters {
    pub chunk_compression_type: CompressionType,
    pub chunk_compression_level: Option<u32>,
    pub max_memory: Option<usize>,
    pub max_nb_chunks: Option<usize>,
}

impl Default for GrenadParameters {
    fn default() -> (r: Self)
        ensures
            r.chunk_compression_level is None,
            r.max_memory is None,
            r.max_nb_chunks is None,
    {
        GrenadParameters {
            chunk_compression_type: compression_none(),
            chunk_compression_level: None,
            max_memory: None,
            max_nb_chunks: None,
        }
    }
}

/// The budget divided evenly between `threads` workers, rounded down; for
/// zero workers, left whole.
pub open spec fn split_memory(max_memory: Option<usize>, threads: usize) -> Option<usize> {
    match max_memory {
        None => None,
        Some(m) => Some(
            if threads == 0 {
                m
            } else {
                (m / threads) as usize
            },
        ),
    }
}

/// The memory budget of each of `threads` workers: the budget divided
/// evenly, rounded down. No pool has zero threads; for zero the budget is
/// left whole.
pub fn memory_per_thread(max_memory: Option<usize>, threads: usize) -> (r: Option<usize>)
    ensures
        r == split_memory(max_memory, threads),
{
    match max_memory {
        None => None,
        Some(m) => {
            if threads == 0 {
                Some(m)
            } else {
                Some(m / threads)
            }
        },
    }
}

impl GrenadParameters {
    /// The memory budget of each thread of the current pool.
    pub fn max_memory_by_thread(&self) -> (r: Option<usize>)
        ensures
            r is None <==> self.max_memory is None,
            r matches Some(m) ==> m <= self.max_memory.unwrap(),
            exists|t: usize| t >= 1 && r == #[trigger] split_memory(self.max_memory, t),
    {
        let threads = current_num_threads();
        let r = memory_per_thread(self.max_memory, threads);
        proof {
            if self.max_memory is Some {
                let m = self.max_memory.unwrap();
                assert(m / threads <= m) by (nonlinear_arith)
                    requires
                        threads > 0,
                ;
            }
        }
        r
    }
}

/// Where the chunks end, records `i` on, when the chunk under way already
/// holds `acc` bytes: a chunk ends after the record that brings it to `limit`
/// bytes or more, and the last chunk ends with the stream (it may be empty).
pub open spec fn chunk_ends_from(sizes: Seq<u64>, limit: nat, i: int, acc: nat) -> Seq<int>
    decreases sizes.len() - i,
{
    if i < 0 || i >= sizes.len() {
        seq![sizes.len() as int]
    } else if acc + sizes[i] >= limit {
        seq![i + 1].add(chunk_ends_from(sizes, limit, i + 1, 0))
    } else {
        chunk_ends_from(sizes, limit, i + 1, (acc + sizes[i]) as nat)
    }
}

pub open spec fn ends_view(ends: Seq<usize>) -> Seq<int> {
    ends.map_values(|e: usize| e as int)
}

/// Cuts a stream of records, given by their sizes in bytes, into chunks of
/// about `documents_chunk_size` bytes: returns the position after the last
/// record of each chunk.
pub fn document_chunk_ends(record_sizes: &Vec<u64>, documents_chunk_size: usize) -> (r: Vec<usize>)
    ensures
        ends_view(r@) == chunk_ends_from(record_sizes@, documents_chunk_size as nat, 0, 0),
{
    let limit = documents_chunk_size as u64;
    let mut ends: Vec<usize> = Vec::new();
    let mut acc: u64 = 0;
    let mut i: usize = 0;
    let ghost full = chunk_ends_from(record_sizes@, documents_chunk_size as nat, 0, 0);
    assert(ends_view(ends@) + full =~= full);
    while i < record_sizes.len()
        invariant
            i <= record_sizes@.len(),
            acc <= limit,
            limit == documents_chunk_size,
            full == chunk_ends_from(record_sizes@, documents_chunk_size as nat, 0, 0),
            full == ends_view(ends@) + chunk_ends_from(
                record_sizes@,
                documents_chunk_size as nat,
                i as int,
                acc as nat,
            ),
        decreases record_sizes.len() - i,
    {
        let size = record_sizes[i];
        if size >= limit - acc {
            let ghost rest = chunk_ends_from(record_sizes@, documents_chunk_size as nat, i + 1, 0);
            let ghost prev = ends@;
            ends.push(i + 1);
            assert(ends_view(ends@) =~= ends_view(prev).push(i + 1));
            acc = 0;
            i = i + 1;
            assert(full =~= ends_view(ends@) + rest);
        } else {
            acc = acc + size;
            i = i + 1;
        }
    }
    let ghost prev = ends@;
    ends.push(i);
    assert(ends_view(ends@) =~= ends_view(prev).push(i as int));
    assert(ends_view(ends@) =~= full);
    ends
}

} // verus!
