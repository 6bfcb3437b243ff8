//! The association records of a study, partitioned by chromosome.

use crate::coordinates::{
    index_of,
    is_first_named,
    lemma_position_of,
    position_of,
    CoordinateSystem,
};
use crate::error::DataFormatError;
use crate::number::Number;
use vstd::prelude::*;

verus! {

/// How many vertices the renderer draws for one data point.
pub const VERTICES_PER_POINT: usize = 3;

/// One record as it was read from the ingested document: each field is
/// `None` where the record has no value of the expected kind under it.
pub struct RawRecord {
    pub chr: Option<String>,
    pub ps: Option<Number>,
    pub p_wald: Option<Number>,
}

/// One measurement: a position on a chromosome and the value found there.
pub struct DataPoint {
    pub chromosome: String,
    pub position: usize,
    pub value: Number,
}

/// A data point in contracts.
pub ghost struct PointView {
    pub chromosome: Seq<char>,
    pub position: nat,
    pub value: Number,
}

impl View for DataPoint {
    type V = PointView;

    open spec fn view(&self) -> PointView {
        PointView { chromosome: self.chromosome@, position: self.position as nat, value: self.value }
    }
}

/// The data points of a vector in contracts.
pub open spec fn views(points: Seq<DataPoint>) -> Seq<PointView> {
    Seq::new(points.len(), |i: int| points[i]@)
}

/// What is wrong with the record at position `index`, if anything: its
/// chromosome is looked at first, then its position, then its value.
pub open spec fn record_fault(raw: RawRecord, index: int) -> Option<DataFormatError> {
    if raw.chr is None {
        Some(DataFormatError::RecordChromosome { index: index as usize })
    } else if index_of(raw.ps) is None {
        Some(DataFormatError::RecordPosition { index: index as usize })
    } else if raw.p_wald is None {
        Some(DataFormatError::RecordValue { index: index as usize })
    } else {
        None
    }
}

/// `error` is what is wrong with the first record that has a fault.
pub open spec fn is_first_record_fault(records: Seq<RawRecord>, error: DataFormatError) -> bool {
    exists|i: int|
        {
            &&& 0 <= i < records.len()
            &&& #[trigger] record_fault(records[i], i) == Some(error)
            &&& forall|j: int| 0 <= j < i ==> record_fault(records[j], j) is None
        }
}

/// The data point that a record without fault describes.
pub open spec fn point_of(raw: RawRecord) -> PointView {
    PointView {
        chromosome: raw.chr->0@,
        position: index_of(raw.ps)->0,
        value: raw.p_wald->0,
    }
}

/// `max` is the largest position among the points, or 0 where there is no
/// point.
pub open spec fn is_max_position(points: Seq<PointView>, max: nat) -> bool {
    &&& forall|i: int| 0 <= i < points.len() ==> (#[trigger] points[i]).position <= max
    &&& if points.len() == 0 {
        max == 0
    } else {
        exists|i: int| 0 <= i < points.len() && (#[trigger] points[i]).position == max
    }
}

/// `range` holds the smallest and the largest value among the points that
/// carry a number, or nothing where no point does.
pub open spec fn is_value_range(points: Seq<PointView>, range: Option<(Number, Number)>) -> bool {
    match range {
        None => forall|i: int|
            0 <= i < points.len() ==> (#[trigger] points[i]).value.spec_is_nan(),
        Some((low, high)) => {
            &&& !low.spec_is_nan()
            &&& !high.spec_is_nan()
            &&& exists|i: int| 0 <= i < points.len() && (#[trigger] points[i]).value == low
            &&& exists|i: int| 0 <= i < points.len() && (#[trigger] points[i]).value == high
            &&& forall|i: int|
                0 <= i < points.len() && !(#[trigger] points[i]).value.spec_is_nan()
                    ==> low.scaled() <= points[i].value.scaled() <= high.scaled()
        },
    }
}

/// Turns the records of an ingested document into data points, in the
/// document's order. The first fault found is reported.
pub fn parse_records(records: Option<Vec<RawRecord>>) -> (parsed: Result<
    Vec<DataPoint>,
    DataFormatError,
>)
    ensures
        match parsed {
            Ok(points) => {
                &&& records is Some
                &&& points@.len() == records->0@.len()
                &&& forall|i: int|
                    0 <= i < points@.len() ==> {
                        &&& record_fault(#[trigger] records->0@[i], i) is None
                        &&& points@[i]@ == point_of(records->0@[i])
                    }
            },
            Err(error) => if records is None {
                error == DataFormatError::Records
            } else {
                is_first_record_fault(records->0@, error)
            },
        },
{
    let raw: Vec<RawRecord> = match records {
        Some(raw) => raw,
        None => {
            return Err(DataFormatError::Records);
        },
    };
    let n: usize = raw.len();
    let mut points: Vec<DataPoint> = Vec::new();
    let mut i: usize = 0;
    while i < n
        invariant
            records == Some(raw),
            n == raw@.len(),
            0 <= i <= n,
            points@.len() == i,
            forall|k: int|
                0 <= k < i ==> {
                    &&& record_fault(#[trigger] raw@[k], k) is None
                    &&& points@[k]@ == point_of(raw@[k])
                },
        decreases n - i,
    {
        let chromosome: String = match &raw[i].chr {
            Some(chromosome) => chromosome.clone(),
            None => {
                assert(record_fault(raw@[i as int], i as int) == Some(
                    DataFormatError::RecordChromosome { index: i },
                ));
                return Err(DataFormatError::RecordChromosome { index: i });
            },
        };
        let position: Option<usize> = match raw[i].ps {
            Some(number) => number.as_index(),
            None => None,
        };
        let position: usize = match position {
            Some(position) => position,
            None => {
                assert(record_fault(raw@[i as int], i as int) == Some(
                    DataFormatError::RecordPosition { index: i },
                ));
                return Err(DataFormatError::RecordPosition { index: i });
            },
        };
        let value: Number = match raw[i].p_wald {
            Some(value) => value,
            None => {
                assert(record_fault(raw@[i as int], i as int) == Some(
                    DataFormatError::RecordValue { index: i },
                ));
                return Err(DataFormatError::RecordValue { index: i });
            },
        };
        points.push(DataPoint { chromosome, position, value });
        i = i + 1;
    }
    Ok(points)
}

/// The data points of one chromosome, in the order they were ingested, with
/// their largest position and the range of their values.
pub struct ChromosomeBucket {
    name: String,
    points: Vec<DataPoint>,
    max_position: usize,
    value_range: Option<(Number, Number)>,
}

/// A bucket in contracts: the chromosome's name and its points.
pub ghost struct BucketView {
    pub name: Seq<char>,
    pub points: Seq<PointView>,
}

impl View for ChromosomeBucket {
    type V = BucketView;

    closed spec fn view(&self) -> BucketView {
        BucketView { name: self.name@, points: views(self.points@) }
    }
}

impl ChromosomeBucket {
    /// The largest position and the value range are those of the points,
    /// and the vertices of the points can be counted.
    #[verifier::type_invariant]
    spec fn consistent(&self) -> bool {
        &&& is_max_position(views(self.points@), self.max_position as nat)
        &&& is_value_range(views(self.points@), self.value_range)
        &&& self.points@.len() * VERTICES_PER_POINT <= usize::MAX
    }

    /// A bucket without points for the chromosome called `name`.
    pub fn new(name: String) -> (bucket: Self)
        ensures
            bucket@.name == name@,
            bucket@.points.len() == 0,
    {
        ChromosomeBucket { name, points: Vec::new(), max_position: 0, value_range: None }
    }

    /// Whether one more point fits.
    pub open spec fn has_room(&self) -> bool {
        (self@.points.len() + 1) * VERTICES_PER_POINT <= usize::MAX
    }

    /// Appends a point and brings the largest position and the value range
    /// up to date.
    pub fn push(&mut self, point: DataPoint)
        requires
            old(self).has_room(),
        ensures
            final(self)@.name == old(self)@.name,
            final(self)@.points == old(self)@.points.push(point@),
    {
        let mut taken = ChromosomeBucket::new(String::new());
        core::mem::swap(self, &mut taken);
        proof {
            use_type_invariant(&taken);
        }
        let ChromosomeBucket { name, points, max_position, value_range } = taken;
        let mut points = points;
        let ghost before = views(points@);
        let ghost after = before.push(point@);
        let max_position: usize = if point.position > max_position {
            point.position
        } else {
            max_position
        };
        let grown: Option<(Number, Number)> = if point.value.is_nan() {
            value_range
        } else {
            let value: Number = point.value;
            match value_range {
                None => Some((value, value)),
                Some((low, high)) => Some(
                    (
                        if value.le(&low) {
                            value
                        } else {
                            low
                        },
                        if high.le(&value) {
                            value
                        } else {
                            high
                        },
                    ),
                ),
            }
        };
        points.push(point);
        proof {
            assert(views(points@) =~= after);
            assert(after[before.len() as int] == point@);
            assert forall|i: int| 0 <= i < before.len() implies after[i] == before[i] by {}
            assert(is_max_position(after, max_position as nat)) by {
                if point.position as nat == max_position as nat {
                    assert(after[before.len() as int].position == max_position);
                } else if before.len() > 0 {
                    let i = choose|i: int|
                        0 <= i < before.len() && (#[trigger] before[i]).position
                            == max_position;
                    assert(after[i].position == max_position);
                }
            }
            assert(is_value_range(after, grown)) by {
                lemma_range_grows(before, value_range, point@, grown);
            }
        }
        *self = ChromosomeBucket { name, points, max_position, value_range: grown };
    }

    /// The chromosome's name.
    pub fn name(&self) -> (name: &str)
        ensures
            name@ == self@.name,
    {
        self.name.as_str()
    }

    /// The points, in the order they were ingested.
    pub fn points(&self) -> (points: &[DataPoint])
        ensures
            views(points@) == self@.points,
    {
        self.points.as_slice()
    }

    /// The number of points.
    pub fn len(&self) -> (len: usize)
        ensures
            len == self@.points.len(),
    {
        self.points.len()
    }

    /// The number of vertices that the points are drawn with.
    pub fn vertex_count(&self) -> (count: usize)
        ensures
            count == VERTICES_PER_POINT * self@.points.len(),
    {
        proof {
            use_type_invariant(self);
        }
        VERTICES_PER_POINT * self.points.len()
    }

    /// The largest position among the points, or 0 where there is none.
    pub fn max_position(&self) -> (max: usize)
        ensures
            is_max_position(self@.points, max as nat),
    {
        proof {
            use_type_invariant(self);
        }
        self.max_position
    }

    /// The smallest and the largest value among the points that carry a
    /// number, or `None` where no point does.
    pub fn value_range(&self) -> (range: Option<(Number, Number)>)
        ensures
            is_value_range(self@.points, range),
    {
        proof {
            use_type_invariant(self);
        }
        self.value_range
    }
}

/// The data points that records without fault describe.
pub open spec fn points_of(records: Seq<RawRecord>) -> Seq<PointView> {
    Seq::new(records.len(), |i: int| point_of(records[i]))
}

/// `range` holds the smallest and the largest value among the points of all
/// buckets that carry a number, or nothing where no point does.
pub open spec fn is_overall_range(
    buckets: Seq<Seq<PointView>>,
    range: Option<(Number, Number)>,
) -> bool {
    match range {
        None => forall|b: int, i: int|
            0 <= b < buckets.len() && 0 <= i < buckets[b].len() ==> (
            #[trigger] buckets[b][i]).value.spec_is_nan(),
        Some((low, high)) => {
            &&& !low.spec_is_nan()
            &&& !high.spec_is_nan()
            &&& exists|b: int, i: int|
                0 <= b < buckets.len() && 0 <= i < buckets[b].len() && (
                #[trigger] buckets[b][i]).value == low
            &&& exists|b: int, i: int|
                0 <= b < buckets.len() && 0 <= i < buckets[b].len() && (
                #[trigger] buckets[b][i]).value == high
            &&& forall|b: int, i: int|
                0 <= b < buckets.len() && 0 <= i < buckets[b].len() && !(
                #[trigger] buckets[b][i]).value.spec_is_nan() ==> low.scaled()
                    <= buckets[b][i].value.scaled() <= high.scaled()
        },
    }
}

/// Whether a point belongs to the chromosome at position `i` of `names`:
/// the first one that carries the point's chromosome name.
pub open spec fn in_bucket(names: Seq<Seq<char>>, i: int) -> spec_fn(PointView) -> bool {
    |point: PointView| position_of(names, point.chromosome) == Some(i)
}

/// Whether a point names a chromosome that is not among `names`.
pub open spec fn is_unknown(names: Seq<Seq<char>>) -> spec_fn(PointView) -> bool {
    |point: PointView| position_of(names, point.chromosome) is None
}

/// Filtering a sequence with one more element at its end keeps or drops
/// that element and leaves the rest as it was.
pub proof fn lemma_filter_push<A>(s: Seq<A>, last: A, keep: spec_fn(A) -> bool)
    ensures
        s.push(last).filter(keep) == if keep(last) {
            s.filter(keep).push(last)
        } else {
            s.filter(keep)
        },
{
    reveal(Seq::filter);
    assert(s.push(last).drop_last() =~= s);
}

/// What partitioning `points` over the chromosomes `names` puts into the
/// buckets.
pub open spec fn partition(points: Seq<PointView>, names: Seq<Seq<char>>) -> Seq<Seq<PointView>> {
    Seq::new(names.len(), |i: int| points.filter(in_bucket(names, i)))
}

/// The number of points in all buckets together.
pub open spec fn total_points(buckets: Seq<Seq<PointView>>) -> nat
    decreases buckets.len(),
{
    if buckets.len() == 0 {
        0
    } else {
        total_points(buckets.drop_last()) + buckets.last().len()
    }
}

/// One more point in one bucket is one more point in all.
proof fn lemma_total_points_grows(buckets: Seq<Seq<PointView>>, i: int, point: PointView)
    requires
        0 <= i < buckets.len(),
    ensures
        total_points(buckets.update(i, buckets[i].push(point))) == total_points(buckets) + 1,
    decreases buckets.len(),
{
    let grown = buckets.update(i, buckets[i].push(point));
    if i == buckets.len() - 1 {
        assert(grown.drop_last() =~= buckets.drop_last());
    } else {
        assert(grown.drop_last() =~= buckets.drop_last().update(
            i,
            buckets.drop_last()[i].push(point),
        ));
        lemma_total_points_grows(buckets.drop_last(), i, point);
    }
}

/// Partitioning loses no point and makes none: every point lands in
/// exactly one bucket or is counted as dropped, so the sizes of the buckets
/// and the count of dropped points add up to the number of points.
pub proof fn lemma_partition_complete(points: Seq<PointView>, names: Seq<Seq<char>>)
    ensures
        total_points(partition(points, names)) + points.filter(is_unknown(names)).len()
            == points.len(),
    decreases points.len(),
{
    reveal(Seq::filter);
    if points.len() == 0 {
        lemma_total_points_empty(partition(points, names));
    } else {
        let before = points.drop_last();
        let last = points.last();
        assert(points =~= before.push(last));
        lemma_partition_complete(before, names);
        lemma_filter_push(before, last, is_unknown(names));
        assert forall|i: int| 0 <= i < names.len() implies #[trigger] points.filter(
            in_bucket(names, i),
        ) == if position_of(names, last.chromosome) == Some(i) {
            before.filter(in_bucket(names, i)).push(last)
        } else {
            before.filter(in_bucket(names, i))
        } by {
            lemma_filter_push(before, last, in_bucket(names, i));
        }
        lemma_position_of(names, last.chromosome);
        match position_of(names, last.chromosome) {
            Some(i) => {
                assert(partition(points, names) =~= partition(before, names).update(
                    i,
                    partition(before, names)[i].push(last),
                ));
                lemma_total_points_grows(partition(before, names), i, last);
            },
            None => {
                assert(partition(points, names) =~= partition(before, names));
            },
        }
    }
}

/// Buckets without points hold no points.
proof fn lemma_total_points_empty(buckets: Seq<Seq<PointView>>)
    requires
        forall|i: int| 0 <= i < buckets.len() ==> (#[trigger] buckets[i]).len() == 0,
    ensures
        total_points(buckets) == 0,
    decreases buckets.len(),
{
    if buckets.len() > 0 {
        lemma_total_points_empty(buckets.drop_last());
    }
}

/// The records of a study, partitioned by chromosome: one bucket for each
/// chromosome of the coordinate system, in its order, and a count of the
/// records that named no chromosome of it.
pub struct GwasDataChrs {
    buckets: Vec<ChromosomeBucket>,
    skipped: usize,
}

/// A partitioned dataset in contracts.
pub ghost struct DatasetView {
    /// The chromosome names, in the order of the coordinate system.
    pub names: Seq<Seq<char>>,
    /// The points of each chromosome, in the order they were ingested.
    pub buckets: Seq<Seq<PointView>>,
    /// How many records were dropped.
    pub skipped: nat,
}

impl View for GwasDataChrs {
    type V = DatasetView;

    closed spec fn view(&self) -> DatasetView {
        DatasetView {
            names: Seq::new(self.buckets@.len(), |i: int| self.buckets@[i]@.name),
            buckets: Seq::new(self.buckets@.len(), |i: int| self.buckets@[i]@.points),
            skipped: self.skipped as nat,
        }
    }
}

impl GwasDataChrs {
    /// `self` is what partitioning `points` over the chromosomes `names`
    /// gives: bucket `i` holds the points of chromosome `i` in their order,
    /// and the points of unknown chromosomes are counted.
    pub open spec fn is_partition_of(&self, points: Seq<PointView>, names: Seq<Seq<char>>) -> bool {
        &&& self@.names == names
        &&& self@.buckets.len() == names.len()
        &&& forall|i: int|
            0 <= i < names.len() ==> #[trigger] self@.buckets[i] == points.filter(
                in_bucket(names, i),
            )
        &&& self@.skipped == points.filter(is_unknown(names)).len()
    }

    /// Partitions data points by chromosome. A point whose chromosome the
    /// coordinate system does not know is dropped and counted.
    pub fn ingest(coords: &CoordinateSystem, points: Vec<DataPoint>) -> (data: Self)
        requires
            points@.len() * VERTICES_PER_POINT <= usize::MAX,
        ensures
            data.is_partition_of(views(points@), coords.names()),
            total_points(data@.buckets) + data@.skipped == points@.len(),
    {
        let names: Vec<String> = coords.chr_names();
        let ghost all = views(points@);
        let ghost chromosomes = coords.names();
        let mut buckets: Vec<ChromosomeBucket> = Vec::new();
        let mut k: usize = 0;
        while k < names.len()
            invariant
                names@.len() == chromosomes.len(),
                0 <= k <= names@.len(),
                buckets@.len() == k,
                forall|i: int|
                    0 <= i < k ==> {
                        &&& (#[trigger] buckets@[i])@.name == names@[i]@
                        &&& buckets@[i]@.points.len() == 0
                    },
            decreases names@.len() - k,
        {
            buckets.push(ChromosomeBucket::new(names[k].clone()));
            k = k + 1;
        }
        let mut data = GwasDataChrs { buckets, skipped: 0 };
        proof {
            reveal(Seq::filter);
            assert(all.take(0) =~= Seq::<PointView>::empty());
            assert(data@.names =~= chromosomes);
            assert forall|i: int| 0 <= i < chromosomes.len() implies #[trigger] data@.buckets[i]
                == all.take(0).filter(in_bucket(chromosomes, i)) by {
                assert(data@.buckets[i] =~= Seq::<PointView>::empty());
            }
        }
        let n: usize = points.len();
        let mut j: usize = 0;
        while j < n
            invariant
                n == points@.len(),
                n * VERTICES_PER_POINT <= usize::MAX,
                0 <= j <= n,
                all == views(points@),
                chromosomes == coords.names(),
                data.is_partition_of(all.take(j as int), chromosomes),
            decreases n - j,
        {
            let point = DataPoint {
                chromosome: points[j].chromosome.clone(),
                position: points[j].position,
                value: points[j].value,
            };
            proof {
                assert(point@ == all[j as int]);
                assert(all.take(j + 1) =~= all.take(j as int).push(point@));
            }
            data.place(coords, point, Ghost(all.take(j as int)));
            j = j + 1;
        }
        proof {
            assert(all.take(n as int) =~= all);
            lemma_partition_complete(all, chromosomes);
            assert(data@.buckets =~= partition(all, chromosomes));
        }
        data
    }

    /// Builds the partitioned dataset that the records of an ingested
    /// document describe. A record with a fault fails the whole dataset,
    /// and the first fault found is reported; a record that names a
    /// chromosome unknown to the coordinate system is dropped and counted.
    pub fn parse_js(coords: &CoordinateSystem, records: Option<Vec<RawRecord>>) -> (parsed: Result<
        Self,
        DataFormatError,
    >)
        requires
            records matches Some(raw) ==> raw@.len() * VERTICES_PER_POINT <= usize::MAX,
        ensures
            match parsed {
                Ok(data) => {
                    &&& records is Some
                    &&& forall|i: int|
                        0 <= i < records->0@.len() ==> record_fault(
                            #[trigger] records->0@[i],
                            i,
                        ) is None
                    &&& data.is_partition_of(points_of(records->0@), coords.names())
                },
                Err(error) => if records is None {
                    error == DataFormatError::Records
                } else {
                    is_first_record_fault(records->0@, error)
                },
            },
    {
        match parse_records(records) {
            Ok(points) => {
                assert(views(points@) =~= points_of(records->0@));
                Ok(Self::ingest(coords, points))
            },
            Err(error) => Err(error),
        }
    }

    /// The bucket of the first chromosome called `chr`, where it holds any
    /// point.
    pub fn bucket(&self, chr: &str) -> (bucket: Option<&ChromosomeBucket>)
        ensures
            match bucket {
                Some(bucket) => {
                    &&& bucket@.name == chr@
                    &&& bucket@.points.len() > 0
                    &&& position_of(self@.names, chr@) matches Some(i) && bucket@.points
                        == self@.buckets[i]
                },
                None => position_of(self@.names, chr@) matches Some(i) ==> self@.buckets[i].len()
                    == 0,
            },
    {
        let wanted: String = chr.to_owned();
        let n: usize = self.buckets.len();
        let mut i: usize = 0;
        while i < n
            invariant
                n == self.buckets@.len(),
                0 <= i <= n,
                wanted@ == chr@,
                forall|k: int| 0 <= k < i ==> self@.names[k] != chr@,
            decreases n - i,
        {
            if self.buckets[i].name == wanted {
                proof {
                    assert(self@.names[i as int] == chr@);
                    assert(is_first_named(self@.names, chr@, i as int));
                    lemma_position_of(self@.names, chr@);
                    assert(self@.buckets[i as int] == self.buckets@[i as int]@.points);
                }
                if self.buckets[i].points.len() > 0 {
                    return Some(&self.buckets[i]);
                } else {
                    return None;
                }
            }
            i = i + 1;
        }
        proof {
            lemma_position_of(self@.names, chr@);
            if self@.names.contains(chr@) {
                let k = choose|k: int| 0 <= k < self@.names.len() && self@.names[k] == chr@;
                assert(self@.names[k] == chr@);
            }
        }
        None
    }

    /// The smallest and the largest value among all points that carry a
    /// number, or `None` where no point does.
    pub fn value_range(&self) -> (range: Option<(Number, Number)>)
        ensures
            is_overall_range(self@.buckets, range),
    {
        let n: usize = self.buckets.len();
        let mut range: Option<(Number, Number)> = None;
        let mut k: usize = 0;
        while k < n
            invariant
                n == self.buckets@.len(),
                0 <= k <= n,
                is_overall_range(self@.buckets.take(k as int), range),
            decreases n - k,
        {
            let here: Option<(Number, Number)> = self.buckets[k].value_range();
            let ghost seen = self@.buckets.take(k as int);
            let ghost next = self@.buckets.take(k + 1);
            let ghost before = range;
            range = match (range, here) {
                (None, here) => here,
                (Some(range), None) => Some(range),
                (Some((low, high)), Some((here_low, here_high))) => Some(
                    (
                        if here_low.le(&low) {
                            here_low
                        } else {
                            low
                        },
                        if high.le(&here_high) {
                            here_high
                        } else {
                            high
                        },
                    ),
                ),
            };
            proof {
                let last = self@.buckets[k as int];
                assert(last == self.buckets@[k as int]@.points);
                assert(next[k as int] == last);
                assert forall|b: int| 0 <= b < k implies next[b] == seen[b] by {}
                lemma_overall_range_grows(seen, before, last, here, range);
                assert(next =~= seen.push(last));
            }
            k = k + 1;
        }
        proof {
            assert(self@.buckets.take(n as int) =~= self@.buckets);
        }
        range
    }

    /// Puts one more point into its bucket, or counts it as dropped.
    fn place(&mut self, coords: &CoordinateSystem, point: DataPoint, Ghost(seen): Ghost<
        Seq<PointView>,
    >)
        requires
            old(self).is_partition_of(seen, coords.names()),
            (seen.len() + 1) * VERTICES_PER_POINT <= usize::MAX,
        ensures
            final(self).is_partition_of(seen.push(point@), coords.names()),
    {
        let ghost names = coords.names();
        let ghost before = self@;
        proof {
            assert forall|i: int| 0 <= i < names.len() implies #[trigger] seen.push(
                point@,
            ).filter(in_bucket(names, i)) == if position_of(names, point@.chromosome) == Some(i) {
                seen.filter(in_bucket(names, i)).push(point@)
            } else {
                seen.filter(in_bucket(names, i))
            } by {
                lemma_filter_push(seen, point@, in_bucket(names, i));
            }
            lemma_filter_push(seen, point@, is_unknown(names));
            seen.lemma_filter_len(is_unknown(names));
        }
        match coords.chr_index(point.chromosome.as_str()) {
            Some(i) => {
                proof {
                    seen.lemma_filter_len(in_bucket(names, i as int));
                    assert(self.buckets@[i as int]@.points == before.buckets[i as int]);
                }
                let ghost buckets = self.buckets@;
                self.buckets[i].push(point);
                proof {
                    assert(self.buckets@.len() == buckets.len());
                    assert forall|k: int| 0 <= k < buckets.len() && k != i implies
                        self.buckets@[k] == buckets[k] by {}
                    assert(self@.names =~= names);
                    assert forall|k: int| 0 <= k < names.len() implies #[trigger] self@.buckets[k]
                        == seen.push(point@).filter(in_bucket(names, k)) by {
                        if k != i {
                            assert(self@.buckets[k] == before.buckets[k]);
                        }
                    }
                }
            },
            None => {
                self.skipped = self.skipped + 1;
                proof {
                    assert(self@.names =~= before.names);
                    assert(self@.buckets =~= before.buckets);
                }
            },
        }
    }

    /// The buckets, one for each chromosome of the coordinate system, in
    /// its order.
    pub fn buckets(&self) -> (buckets: &[ChromosomeBucket])
        ensures
            buckets@.len() == self@.buckets.len(),
            forall|i: int|
                0 <= i < buckets@.len() ==> {
                    &&& (#[trigger] buckets@[i])@.name == self@.names[i]
                    &&& buckets@[i]@.points == self@.buckets[i]
                },
    {
        self.buckets.as_slice()
    }

    /// How many records were dropped because the coordinate system does not
    /// know their chromosome.
    pub fn skipped(&self) -> (skipped: usize)
        ensures
            skipped == self@.skipped,
    {
        self.skipped
    }
}

/// How the overall value range changes when a bucket is taken in: the
/// bucket's own range widens it as far as needed.
proof fn lemma_overall_range_grows(
    seen: Seq<Seq<PointView>>,
    range: Option<(Number, Number)>,
    bucket: Seq<PointView>,
    here: Option<(Number, Number)>,
    grown: Option<(Number, Number)>,
)
    requires
        is_overall_range(seen, range),
        is_value_range(bucket, here),
        grown == match (range, here) {
            (None, here) => here,
            (Some(range), None) => Some(range),
            (Some((low, high)), Some((here_low, here_high))) => Some(
                (
                    if here_low.scaled() <= low.scaled() {
                        here_low
                    } else {
                        low
                    },
                    if high.scaled() <= here_high.scaled() {
                        here_high
                    } else {
                        high
                    },
                ),
            ),
        },
    ensures
        is_overall_range(seen.push(bucket), grown),
{
    let next = seen.push(bucket);
    let last = seen.len() as int;
    assert(next[last] == bucket);
    assert forall|b: int| 0 <= b < last implies next[b] == seen[b] by {}
    match grown {
        None => {
            assert forall|b: int, i: int| 0 <= b < next.len() && 0 <= i < next[b].len() implies (
            #[trigger] next[b][i]).value.spec_is_nan() by {
                if b < last {
                    assert(seen[b][i].value.spec_is_nan());
                } else {
                    assert(bucket[i].value.spec_is_nan());
                }
            }
        },
        Some((low, high)) => {
            if range is Some {
                let (old_low, old_high) = range->0;
                let (b0, i0) = choose|b: int, i: int|
                    0 <= b < seen.len() && 0 <= i < seen[b].len() && (
                    #[trigger] seen[b][i]).value == old_low;
                let (b1, i1) = choose|b: int, i: int|
                    0 <= b < seen.len() && 0 <= i < seen[b].len() && (
                    #[trigger] seen[b][i]).value == old_high;
                if low == old_low {
                    assert(next[b0][i0].value == low);
                }
                if high == old_high {
                    assert(next[b1][i1].value == high);
                }
            }
            if here is Some {
                let (here_low, here_high) = here->0;
                let i0 = choose|i: int|
                    0 <= i < bucket.len() && (#[trigger] bucket[i]).value == here_low;
                let i1 = choose|i: int|
                    0 <= i < bucket.len() && (#[trigger] bucket[i]).value == here_high;
                if low == here_low {
                    assert(next[last][i0].value == low);
                }
                if high == here_high {
                    assert(next[last][i1].value == high);
                }
            }
            assert forall|b: int, i: int|
                0 <= b < next.len() && 0 <= i < next[b].len() && !(
                #[trigger] next[b][i]).value.spec_is_nan() implies low.scaled()
                <= next[b][i].value.scaled() <= high.scaled() by {
                if b < last {
                    assert(!seen[b][i].value.spec_is_nan());
                } else {
                    assert(!bucket[i].value.spec_is_nan());
                }
            }
        },
    }
}

/// How the value range changes when a point is appended: a value that is
/// no number leaves it alone, any other value widens it as far as needed.
proof fn lemma_range_grows(
    before: Seq<PointView>,
    range: Option<(Number, Number)>,
    point: PointView,
    grown: Option<(Number, Number)>,
)
    requires
        is_value_range(before, range),
        grown == if point.value.spec_is_nan() {
            range
        } else {
            match range {
                None => Some((point.value, point.value)),
                Some((low, high)) => Some(
                    (
                        if point.value.scaled() <= low.scaled() {
                            point.value
                        } else {
                            low
                        },
                        if high.scaled() <= point.value.scaled() {
                            point.value
                        } else {
                            high
                        },
                    ),
                ),
            }
        },
    ensures
        is_value_range(before.push(point), grown),
{
    let after = before.push(point);
    let last = before.len() as int;
    assert(after[last] == point);
    assert forall|i: int| 0 <= i < before.len() implies after[i] == before[i] by {}
    match grown {
        None => {
            assert forall|i: int| 0 <= i < after.len() implies (
            #[trigger] after[i]).value.spec_is_nan() by {
                if i < last {
                    assert(before[i].value.spec_is_nan());
                }
            }
        },
        Some((low, high)) => {
            match range {
                None => {
                    assert(after[last].value == low);
                    assert(after[last].value == high);
                    assert forall|i: int|
                        0 <= i < after.len() && !(#[trigger] after[i]).value.spec_is_nan()
                        implies low.scaled() <= after[i].value.scaled() <= high.scaled() by {
                        if i < last {
                            assert(before[i].value.spec_is_nan());
                        }
                    }
                },
                Some((old_low, old_high)) => {
                    let a = choose|i: int|
                        0 <= i < before.len() && (#[trigger] before[i]).value == old_low;
                    let b = choose|i: int|
                        0 <= i < before.len() && (#[trigger] before[i]).value == old_high;
                    if low == old_low {
                        assert(after[a].value == low);
                    } else {
                        assert(after[last].value == low);
                    }
                    if high == old_high {
                        assert(after[b].value == high);
                    } else {
                        assert(after[last].value == high);
                    }
                    assert forall|i: int|
                        0 <= i < after.len() && !(#[trigger] after[i]).value.spec_is_nan()
                        implies low.scaled() <= after[i].value.scaled() <= high.scaled() by {
                        if i < last {
                            assert(!before[i].value.spec_is_nan());
                        }
                    }
                },
            }
        },
    }
}

} // verus!
