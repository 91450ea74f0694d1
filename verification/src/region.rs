//! Genomic regions: half-open intervals on a named chromosome, and the loader
//! that turns an interval file's bytes into the ordered set of regions.

use vstd::prelude::*;

verus! {

/// A half-open interval `[start, end)` on a chromosome, 0-based. Its position
/// in the region set is the row of the table that it produces.
#[derive(Debug, Clone, PartialEq, Eq)]
pub struct Region {
    pub chrom: String,
    pub start: u64,
    pub end: u64,
}

impl View for Region {
    type V = (Seq<char>, u64, u64);

    /// Chromosome, start and end.
    open spec fn view(&self) -> (Seq<char>, u64, u64) {
        (self.chrom@, self.start, self.end)
    }
}

/// What makes a record a region: a chromosome name and at least one base.
pub open spec fn is_region(rec: (Seq<char>, u64, u64)) -> bool {
    rec.0.len() > 0 && rec.1 < rec.2
}

/// The records of a sequence of regions, in order.
pub open spec fn region_views(regions: Seq<Region>) -> Seq<(Seq<char>, u64, u64)> {
    regions.map_values(|r: Region| r@)
}

impl Region {
    /// A region covers at least one base and names its chromosome.
    pub open spec fn wf(&self) -> bool {
        is_region(self@)
    }

    /// Whether the record is a region.
    pub fn is_valid(&self) -> (ok: bool)
        ensures
            ok == self.wf(),
    {
        !self.chrom.as_str().is_empty() && self.start < self.end
    }

    /// The interval as a track is asked for it. Tracks address positions with
    /// 32 bits: a region with a coordinate beyond them has no query, so that
    /// no other interval is ever asked for in its place.
    pub fn query_interval(&self) -> (r: Option<(u32, u32)>)
        ensures
            match r {
                Some(q) => q.0 == self.start && q.1 == self.end,
                None => self.start > 0xffff_ffff || self.end > 0xffff_ffff,
            },
    {
        if self.start <= 0xffff_ffff && self.end <= 0xffff_ffff {
            Some((self.start as u32, self.end as u32))
        } else {
            None
        }
    }
}

/// Why an interval file gives no region set.
#[derive(Debug, Clone, PartialEq, Eq)]
pub enum RegionParseError {
    /// The file could not be read; the message is the reader's.
    Unreadable { message: String },
    /// The bytes are not a table whose rows hold a chromosome, a start and an
    /// end; the message is the decoder's.
    Malformed { message: String },
    /// The record at this position names no chromosome.
    EmptyChromosome { record: usize },
    /// The record at this position has a start that is not below its end.
    EmptyInterval { record: usize },
}

/// The error that a record which is no region is rejected with.
pub open spec fn rejection(record: int, rec: (Seq<char>, u64, u64)) -> RegionParseError {
    if rec.0.len() == 0 {
        RegionParseError::EmptyChromosome { record: record as usize }
    } else {
        RegionParseError::EmptyInterval { record: record as usize }
    }
}

/// The outcome owed for a sequence of decoded records: the records themselves
/// where each is a region, and otherwise the rejection of the first that is
/// not.
pub open spec fn accepts(
    recs: Seq<(Seq<char>, u64, u64)>,
    outcome: Result<Vec<Region>, RegionParseError>,
) -> bool {
    match outcome {
        Ok(regions) => {
            &&& region_views(regions@) == recs
            &&& forall|i: int| 0 <= i < recs.len() ==> is_region(#[trigger] recs[i])
        },
        Err(e) => exists|k: int|
            {
                &&& 0 <= k < recs.len()
                &&& !is_region(#[trigger] recs[k])
                &&& forall|j: int| 0 <= j < k ==> is_region(#[trigger] recs[j])
                &&& e == rejection(k, recs[k])
            },
    }
}

/// The records that the interval-format decoder reads from a file's bytes, or
/// `None` where it reports an error.
pub uninterp spec fn bed_records(bytes: Seq<u8>) -> Option<Seq<(Seq<char>, u64, u64)>>;

/// Runs `bio::io::bed::Reader` over the bytes and keeps chromosome, start and
/// end of each record. The decoder is a function of the bytes alone: the
/// contract names what it reads and claims nothing more of it. The error's
/// text is the decoder's own.
#[verifier::external_body]
fn decode_bed(bytes: &[u8]) -> (r: Result<Vec<Region>, String>)
    ensures
        match r {
            Ok(regions) => bed_records(bytes@) == Some(region_views(regions@)),
            Err(_) => bed_records(bytes@) is None,
        },
{
    bio::io::bed::Reader::new(bytes)
        .records()
        .map(|rec| match rec {
            Ok(rec) => Ok(Region { chrom: rec.chrom().to_string(), start: rec.start(), end: rec.end() }),
            Err(e) => Err(e.to_string()),
        })
        .collect()
}

/// Accepts decoded records as a region set: all of them, unchanged and in
/// order, or the rejection of the first record that is no region.
pub fn validate_regions(regions: Vec<Region>) -> (r: Result<Vec<Region>, RegionParseError>)
    ensures
        accepts(region_views(regions@), r),
        r matches Ok(out) ==> out == regions,
{
    let ghost recs = region_views(regions@);
    let mut i: usize = 0;
    while i < regions.len()
        invariant
            i <= regions.len(),
            recs == region_views(regions@),
            forall|j: int| 0 <= j < i ==> is_region(#[trigger] recs[j]),
        decreases regions.len() - i,
    {
        if !regions[i].is_valid() {
            let e = if regions[i].chrom.as_str().is_empty() {
                RegionParseError::EmptyChromosome { record: i }
            } else {
                RegionParseError::EmptyInterval { record: i }
            };
            assert(!is_region(recs[i as int]));
            assert(e == rejection(i as int, recs[i as int]));
            return Err(e);
        }
        i = i + 1;
    }
    Ok(regions)
}

/// Loads the region set from the bytes of an interval file: one region per
/// record, in file order, duplicates kept. Fails where the decoder fails, and
/// where a record is no region.
pub fn extract_intervals(bytes: &[u8]) -> (r: Result<Vec<Region>, RegionParseError>)
    ensures
        match bed_records(bytes@) {
            Some(recs) => accepts(recs, r),
            None => r matches Err(RegionParseError::Malformed { .. }),
        },
{
    match decode_bed(bytes) {
        Ok(regions) => validate_regions(regions),
        Err(message) => Err(RegionParseError::Malformed { message }),
    }
}

} // verus!
