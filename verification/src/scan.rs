//! The initial scan: every readable region is read in bulk and searched,
//! window by window, for values that pass a test.

use crate::access::AccessError;
use crate::region::MemoryRegion;
use crate::value_test::ValueTest;
use vstd::prelude::*;
use vstd::slice::slice_subrange;

verus! {

/// Number of windows of `width` bytes that lie wholly inside `len` bytes.
pub open spec fn window_count(len: nat, width: nat) -> nat {
    if len >= width {
        (len - width + 1) as nat
    } else {
        0
    }
}

/// The `width` bytes of `bytes` that start at offset `o`.
pub open spec fn window(bytes: Seq<u8>, width: nat, o: int) -> Seq<u8> {
    bytes.subrange(o, o + width)
}

/// Addresses of the passing windows among the first `k` offsets of a region
/// that starts at `start`, in ascending order.
pub open spec fn matches_below<V: ValueTest>(test: &V, start: usize, bytes: Seq<u8>, k: nat) -> Seq<
    usize,
>
    decreases k,
{
    if k == 0 {
        Seq::empty()
    } else {
        let o = k - 1;
        let rest = matches_below(test, start, bytes, o as nat);
        if test.accepts(window(bytes, test.width(), o)) {
            rest.push((start + o) as usize)
        } else {
            rest
        }
    }
}

/// Addresses of all passing windows of a region with contents `bytes` that
/// starts at `start`: one for each offset `o` with `o + width <= len` whose
/// window the test accepts.
pub open spec fn region_matches<V: ValueTest>(test: &V, start: usize, bytes: Seq<u8>) -> Seq<
    usize,
> {
    matches_below(test, start, bytes, window_count(bytes.len(), test.width()))
}

/// Scans the contents of one region.
///
/// Every offset at which a whole value still fits is tried; the trailing
/// `width - 1` bytes start no window.
pub fn scan_region<V: ValueTest>(start: usize, bytes: &[u8], test: &V) -> (found: Vec<usize>)
    requires
        test.wf(),
        start + bytes@.len() <= usize::MAX,
    ensures
        found@ == region_matches(test, start, bytes@),
{
    let width: usize = test.size();
    let mut found: Vec<usize> = Vec::new();
    if bytes.len() < width {
        return found;
    }
    let count: usize = bytes.len() - width + 1;
    let mut o: usize = 0;
    while o < count
        invariant
            test.wf(),
            width == test.width(),
            width >= 1,
            bytes@.len() >= width,
            count == bytes@.len() - width + 1,
            start + bytes@.len() <= usize::MAX,
            o <= count,
            found@ == matches_below(test, start, bytes@, o as nat),
        decreases count - o,
    {
        let candidate = slice_subrange(bytes, o, o + width);
        if test.check(candidate) {
            found.push(start + o);
        }
        o += 1;
    }
    found
}

/// Whether `found` lists exactly the passing windows of a region with
/// contents `bytes` that starts at `start`: the address of every window
/// that lies wholly inside the region and passes the test is listed, nothing
/// else is, and the addresses ascend without repetition.
pub open spec fn lists_exactly<V: ValueTest>(
    test: &V,
    start: usize,
    bytes: Seq<u8>,
    found: Seq<usize>,
) -> bool {
    &&& forall|o: int|
        0 <= o && o + test.width() <= bytes.len() && #[trigger] test.accepts(
            window(bytes, test.width(), o),
        ) ==> found.contains((start + o) as usize)
    &&& forall|i: int|
        0 <= i < found.len() ==> {
            let o = #[trigger] found[i] - start;
            &&& 0 <= o
            &&& o + test.width() <= bytes.len()
            &&& test.accepts(window(bytes, test.width(), o))
        }
    &&& forall|i: int, j: int| 0 <= i < j < found.len() ==> found[i] < found[j]
}

/// The scan of a region finds exactly the passing windows that lie wholly
/// inside it, whatever the test and whatever the bytes.
pub proof fn lemma_region_matches<V: ValueTest>(test: &V, start: usize, bytes: Seq<u8>)
    requires
        start + bytes.len() <= usize::MAX,
    ensures
        lists_exactly(test, start, bytes, region_matches(test, start, bytes)),
{
    lemma_matches_below(test, start, bytes, window_count(bytes.len(), test.width()));
}

proof fn lemma_matches_below<V: ValueTest>(test: &V, start: usize, bytes: Seq<u8>, k: nat)
    requires
        start + k <= usize::MAX + 1,
    ensures
        forall|o: int|
            0 <= o < k && test.accepts(window(bytes, test.width(), o)) ==> matches_below(
                test,
                start,
                bytes,
                k,
            ).contains((start + o) as usize),
        forall|i: int|
            0 <= i < matches_below(test, start, bytes, k).len() ==> {
                let o = #[trigger] matches_below(test, start, bytes, k)[i] - start;
                &&& 0 <= o < k
                &&& test.accepts(window(bytes, test.width(), o))
            },
        forall|i: int, j: int|
            0 <= i < j < matches_below(test, start, bytes, k).len() ==> matches_below(
                test,
                start,
                bytes,
                k,
            )[i] < matches_below(test, start, bytes, k)[j],
    decreases k,
{
    if k > 0 {
        let last = (k - 1) as nat;
        let rest = matches_below(test, start, bytes, last);
        let all = matches_below(test, start, bytes, k);
        lemma_matches_below(test, start, bytes, last);
        if test.accepts(window(bytes, test.width(), last as int)) {
            let a = (start + last) as usize;
            assert(all[rest.len() as int] == a);
            assert forall|o: int|
                0 <= o < k && test.accepts(window(bytes, test.width(), o)) implies all.contains(
                (start + o) as usize,
            ) by {
                if o < last {
                    let i = choose|i: int| 0 <= i < rest.len() && rest[i] == (start + o) as usize;
                    assert(all[i] == (start + o) as usize);
                }
            }
        }
    }
}

/// What one region adds to a scan: the matches of its contents where the
/// region was read whole, nothing where the read failed or fell short.
pub open spec fn read_matches<V: ValueTest>(
    test: &V,
    region: MemoryRegion,
    read: Result<Vec<u8>, AccessError>,
) -> Seq<usize> {
    match read {
        Ok(bytes) => if region.start <= region.end && bytes@.len() == region.end - region.start {
            region_matches(test, region.start, bytes@)
        } else {
            Seq::empty()
        },
        Err(_) => Seq::empty(),
    }
}

/// Scans one region given the outcome of its bulk read.
///
/// A region that could not be read adds no candidate and raises no error.
pub fn scan_read<V: ValueTest>(
    region: &MemoryRegion,
    read: &Result<Vec<u8>, AccessError>,
    test: &V,
) -> (found: Vec<usize>)
    requires
        test.wf(),
    ensures
        found@ == read_matches(test, *region, *read),
{
    match read {
        Ok(bytes) => {
            if region.start <= region.end && bytes.len() == region.end - region.start {
                scan_region(region.start, bytes.as_slice(), test)
            } else {
                Vec::new()
            }
        },
        Err(_) => Vec::new(),
    }
}

/// The lists of `lists` one after the other, in order.
pub open spec fn concat(lists: Seq<Vec<usize>>) -> Seq<usize>
    decreases lists.len(),
{
    if lists.len() == 0 {
        Seq::empty()
    } else {
        concat(lists.drop_last()) + lists.last()@
    }
}

/// Merges per-region candidate lists into one candidate set.
pub fn merge(lists: &Vec<Vec<usize>>) -> (all: Vec<usize>)
    ensures
        all@ == concat(lists@),
{
    let mut all: Vec<usize> = Vec::new();
    let mut i: usize = 0;
    while i < lists.len()
        invariant
            i <= lists.len(),
            all@ == concat(lists@.take(i as int)),
        decreases lists.len() - i,
    {
        let list = &lists[i];
        let ghost before = all@;
        let mut j: usize = 0;
        while j < list.len()
            invariant
                j <= list.len(),
                all@ == before + list@.take(j as int),
            decreases list.len() - j,
        {
            all.push(list[j]);
            j += 1;
        }
        proof {
            assert(lists@.take(i + 1).drop_last() == lists@.take(i as int));
        }
        i += 1;
    }
    assert(lists@.take(lists.len() as int) == lists@);
    all
}

/// Candidates of the first `k` regions, region by region.
pub open spec fn scan_below<V: ValueTest>(
    test: &V,
    regions: Seq<MemoryRegion>,
    reads: Seq<Result<Vec<u8>, AccessError>>,
    k: nat,
) -> Seq<usize>
    decreases k,
{
    if k == 0 {
        Seq::empty()
    } else {
        let i = k - 1;
        let found = if i < reads.len() {
            read_matches(test, regions[i], reads[i])
        } else {
            Seq::empty()
        };
        scan_below(test, regions, reads, i as nat) + found
    }
}

/// The candidate set of an initial scan: what each region adds, in the
/// order of the regions. `reads[i]` is the outcome of the bulk read of
/// `regions[i]`; a region without a read counts as unreadable.
pub open spec fn scan_all<V: ValueTest>(
    test: &V,
    regions: Seq<MemoryRegion>,
    reads: Seq<Result<Vec<u8>, AccessError>>,
) -> Seq<usize> {
    scan_below(test, regions, reads, regions.len())
}

/// Runs the initial scan over the bulk reads of all regions.
///
/// Unreadable regions are passed over in silence; the scan itself never
/// fails.
pub fn initial_scan<V: ValueTest>(
    regions: &Vec<MemoryRegion>,
    reads: &Vec<Result<Vec<u8>, AccessError>>,
    test: &V,
) -> (found: Vec<usize>)
    requires
        test.wf(),
    ensures
        found@ == scan_all(test, regions@, reads@),
{
    let mut lists: Vec<Vec<usize>> = Vec::new();
    let mut i: usize = 0;
    while i < regions.len()
        invariant
            test.wf(),
            i <= regions.len(),
            lists@.len() == i,
            concat(lists@) == scan_below(test, regions@, reads@, i as nat),
        decreases regions.len() - i,
    {
        let found = if i < reads.len() {
            scan_read(&regions[i], &reads[i], test)
        } else {
            Vec::new()
        };
        proof {
            assert(lists@.push(found).drop_last() == lists@);
        }
        lists.push(found);
        i += 1;
    }
    merge(&lists)
}

/// Every candidate of an initial scan lies in one of the scanned regions,
/// at least a whole value before that region's end.
pub proof fn lemma_candidates_inside_regions<V: ValueTest>(
    test: &V,
    regions: Seq<MemoryRegion>,
    reads: Seq<Result<Vec<u8>, AccessError>>,
)
    ensures
        forall|c: int|
            0 <= c < scan_all(test, regions, reads).len() ==> exists|i: int|
                0 <= i < regions.len() && regions[i].start <= (#[trigger] scan_all(
                    test,
                    regions,
                    reads,
                )[c]) && scan_all(test, regions, reads)[c] + test.width() <= #[trigger] regions[i].end,
{
    lemma_scan_below_inside(test, regions, reads, regions.len());
}

proof fn lemma_scan_below_inside<V: ValueTest>(
    test: &V,
    regions: Seq<MemoryRegion>,
    reads: Seq<Result<Vec<u8>, AccessError>>,
    k: nat,
)
    requires
        k <= regions.len(),
    ensures
        forall|c: int|
            0 <= c < scan_below(test, regions, reads, k).len() ==> exists|i: int|
                0 <= i < k && regions[i].start <= (#[trigger] scan_below(test, regions, reads, k)[c])
                    && scan_below(test, regions, reads, k)[c] + test.width() <= #[trigger] regions[i].end,
    decreases k,
{
    if k > 0 {
        let i = (k - 1) as int;
        let before = scan_below(test, regions, reads, i as nat);
        let all = scan_below(test, regions, reads, k);
        lemma_scan_below_inside(test, regions, reads, i as nat);
        assert forall|c: int| 0 <= c < all.len() implies exists|r: int|
            0 <= r < k && regions[r].start <= (#[trigger] all[c]) && all[c] + test.width()
                <= #[trigger] regions[r].end by {
            if c < before.len() {
                assert(all[c] == before[c]);
            } else {
                lemma_region_matches(test, regions[i].start, reads[i]->Ok_0@);
            }
        }
    }
}

/// Scanning region by region, in any order and on any number of workers,
/// and merging the lists in the order of the regions gives the candidate
/// set of the scan as a whole.
pub proof fn lemma_merge_of_region_scans<V: ValueTest>(
    test: &V,
    regions: Seq<MemoryRegion>,
    reads: Seq<Result<Vec<u8>, AccessError>>,
    lists: Seq<Vec<usize>>,
)
    requires
        reads.len() == regions.len(),
        lists.len() == regions.len(),
        forall|i: int|
            0 <= i < regions.len() ==> (#[trigger] lists[i])@ == read_matches(
                test,
                regions[i],
                reads[i],
            ),
    ensures
        concat(lists) == scan_all(test, regions, reads),
{
    lemma_concat_of_region_scans(test, regions, reads, lists, regions.len());
    assert(lists.take(regions.len() as int) == lists);
}

proof fn lemma_concat_of_region_scans<V: ValueTest>(
    test: &V,
    regions: Seq<MemoryRegion>,
    reads: Seq<Result<Vec<u8>, AccessError>>,
    lists: Seq<Vec<usize>>,
    k: nat,
)
    requires
        k <= regions.len(),
        reads.len() == regions.len(),
        lists.len() == regions.len(),
        forall|i: int|
            0 <= i < regions.len() ==> (#[trigger] lists[i])@ == read_matches(
                test,
                regions[i],
                reads[i],
            ),
    ensures
        concat(lists.take(k as int)) == scan_below(test, regions, reads, k),
    decreases k,
{
    if k > 0 {
        lemma_concat_of_region_scans(test, regions, reads, lists, (k - 1) as nat);
        assert(lists.take(k as int).drop_last() == lists.take(k - 1));
    }
}

/// The initial scan of a single region that was read whole finds exactly
/// the passing windows that lie wholly inside the region; a window that
/// would reach past the region's end is not tried.
pub proof fn lemma_scan_of_one_region<V: ValueTest>(
    test: &V,
    region: MemoryRegion,
    bytes: Vec<u8>,
)
    requires
        region.start <= region.end,
        bytes@.len() == region.end - region.start,
    ensures
        scan_all(test, seq![region], seq![Ok(bytes)]) == region_matches(
            test,
            region.start,
            bytes@,
        ),
        lists_exactly(test, region.start, bytes@, scan_all(test, seq![region], seq![Ok(bytes)])),
{
    let regions = seq![region];
    let reads = seq![Ok::<Vec<u8>, AccessError>(bytes)];
    reveal_with_fuel(scan_below, 2);
    lemma_region_matches(test, region.start, bytes@);
}

} // verus!
