//! The concatenated global coordinate space: chromosomes laid end to end,
//! in the order they were given, with a fixed gap between neighbours.

use crate::error::DataFormatError;
use crate::number::Number;
use vstd::prelude::*;

verus! {

/// One chromosome as it was read from the ingested document: each field is
/// `None` where the document has no value of the expected kind under it.
pub struct RawChromosome {
    pub name: Option<String>,
    pub len: Option<Number>,
}

/// A coordinate system as it was read from the ingested document.
pub struct RawCoordinateSystem {
    pub name: Option<String>,
    pub chrs: Option<Vec<RawChromosome>>,
}

/// The length that a number stands for, where it is a whole number from 0
/// to the largest `usize`.
pub open spec fn index_of(number: Option<Number>) -> Option<nat> {
    match number {
        Some(number) => match number.whole() {
            Some(n) => if n <= usize::MAX {
                Some(n)
            } else {
                None
            },
            None => None,
        },
        None => None,
    }
}

/// What is wrong with the chromosome at position `index`, if anything: its
/// name is looked at before its length.
pub open spec fn chromosome_fault(raw: RawChromosome, index: int) -> Option<DataFormatError> {
    if raw.name is None {
        Some(DataFormatError::ChromosomeName { index: index as usize })
    } else if index_of(raw.len) is None {
        Some(DataFormatError::ChromosomeLength { index: index as usize })
    } else {
        None
    }
}

/// `error` is what is wrong with the first chromosome that has a fault.
pub open spec fn is_first_chromosome_fault(
    chrs: Seq<RawChromosome>,
    error: DataFormatError,
) -> bool {
    exists|i: int|
        {
            &&& 0 <= i < chrs.len()
            &&& #[trigger] chromosome_fault(chrs[i], i) == Some(error)
            &&& forall|j: int| 0 <= j < i ==> chromosome_fault(chrs[j], j) is None
        }
}

/// Start of chromosome `i` when chromosomes of the given lengths are laid
/// out in order with `padding` basepairs between neighbours.
pub open spec fn offset_at(lengths: Seq<nat>, padding: nat, i: int) -> nat
    decreases i,
{
    if i <= 0 {
        0
    } else {
        offset_at(lengths, padding, i - 1) + lengths[i - 1] + padding
    }
}

/// End of the last chromosome, or 0 where there is none.
pub open spec fn span(lengths: Seq<nat>, padding: nat) -> nat {
    if lengths.len() == 0 {
        0
    } else {
        offset_at(lengths, padding, lengths.len() - 1) + lengths.last()
    }
}

/// `i` is the first position in `names` that holds `name`.
pub open spec fn is_first_named(names: Seq<Seq<char>>, name: Seq<char>, i: int) -> bool {
    &&& 0 <= i < names.len()
    &&& names[i] == name
    &&& forall|j: int| 0 <= j < i ==> names[j] != name
}

/// The first position in `names` that holds `name`, if there is one.
pub open spec fn position_of(names: Seq<Seq<char>>, name: Seq<char>) -> Option<int> {
    if exists|i: int| is_first_named(names, name, i) {
        Some(choose|i: int| is_first_named(names, name, i))
    } else {
        None
    }
}

/// A name has at most one first position, and has one wherever it occurs.
pub proof fn lemma_position_of(names: Seq<Seq<char>>, name: Seq<char>)
    ensures
        forall|i: int| is_first_named(names, name, i) ==> position_of(names, name) == Some(i),
        position_of(names, name) is None <==> !names.contains(name),
        position_of(names, name) matches Some(i) ==> is_first_named(names, name, i),
{
    assert forall|i: int| is_first_named(names, name, i) implies position_of(names, name)
        == Some(i) by {
        let j = choose|j: int| is_first_named(names, name, j);
        assert(is_first_named(names, name, j));
        if j < i {
            assert(names[j] == name);
        } else if i < j {
            assert(names[i] == name);
        }
    }
    if names.contains(name) {
        let k = choose|k: int| 0 <= k < names.len() && names[k] == name;
        lemma_first_exists(names, name, k);
    }
}

/// Where a name occurs at `k`, it has a first position at or before `k`.
proof fn lemma_first_exists(names: Seq<Seq<char>>, name: Seq<char>, k: int)
    requires
        0 <= k < names.len(),
        names[k] == name,
    ensures
        exists|i: int| 0 <= i <= k && is_first_named(names, name, i),
    decreases k,
{
    if exists|j: int| 0 <= j < k && names[j] == name {
        let j = choose|j: int| 0 <= j < k && names[j] == name;
        lemma_first_exists(names, name, j);
    } else {
        assert(is_first_named(names, name, k));
    }
}

/// No chromosome before the last is empty and without a gap behind it:
/// the condition under which no two chromosomes start at the same place.
pub open spec fn steps_positive(lengths: Seq<nat>, padding: nat) -> bool {
    forall|k: int| 0 <= k < lengths.len() - 1 ==> #[trigger] lengths[k] + padding > 0
}

/// Offsets grow strictly along the chromosome order wherever every step
/// between the two positions has a positive width.
pub proof fn lemma_offset_strictly_monotonic(lengths: Seq<nat>, padding: nat, i: int, j: int)
    requires
        0 <= i < j,
        forall|k: int| i <= k < j ==> #[trigger] lengths[k] + padding > 0,
    ensures
        offset_at(lengths, padding, i) < offset_at(lengths, padding, j),
    decreases j - i,
{
    assert(lengths[j - 1] + padding > 0);
    if i < j - 1 {
        lemma_offset_strictly_monotonic(lengths, padding, i, j - 1);
    }
}

/// Offsets never decrease along the chromosome order.
pub proof fn lemma_offset_monotonic(lengths: Seq<nat>, padding: nat, i: int, j: int)
    requires
        0 <= i <= j,
    ensures
        offset_at(lengths, padding, i) <= offset_at(lengths, padding, j),
    decreases j - i,
{
    if i < j {
        lemma_offset_monotonic(lengths, padding, i, j - 1);
    }
}

/// An ordered table of chromosome names and lengths.
pub struct CoordinateSystem {
    name: String,
    chrs: Vec<(String, usize)>,
}

impl View for CoordinateSystem {
    type V = Seq<(Seq<char>, nat)>;

    /// The chromosomes in order, each as its name and its length.
    closed spec fn view(&self) -> Seq<(Seq<char>, nat)> {
        Seq::new(self.chrs@.len(), |i: int| (self.chrs@[i].0@, self.chrs@[i].1 as nat))
    }
}

impl CoordinateSystem {
    /// The name of the assembly.
    pub closed spec fn spec_name(&self) -> Seq<char> {
        self.name@
    }

    /// The chromosome names, in order.
    pub open spec fn names(&self) -> Seq<Seq<char>> {
        Seq::new(self@.len(), |i: int| self@[i].0)
    }

    /// The chromosome lengths, in order.
    pub open spec fn lengths(&self) -> Seq<nat> {
        Seq::new(self@.len(), |i: int| self@[i].1)
    }

    /// A coordinate system with the given chromosomes, in the given order.
    pub fn new(name: String, chrs: Vec<(String, usize)>) -> (system: Self)
        ensures
            system.spec_name() == name@,
            system@.len() == chrs@.len(),
            forall|i: int|
                0 <= i < chrs@.len() ==> (#[trigger] system@[i]) == (
                    chrs@[i].0@,
                    chrs@[i].1 as nat,
                ),
    {
        CoordinateSystem { name, chrs }
    }

    /// Builds the coordinate system that an ingested document describes,
    /// keeping the chromosomes in the document's order. The first fault
    /// found is reported: the system's name, then its array of chromosomes,
    /// then the chromosomes in order.
    pub fn parse_js(obj: RawCoordinateSystem) -> (parsed: Result<Self, DataFormatError>)
        ensures
            match parsed {
                Ok(system) => {
                    &&& obj.name is Some
                    &&& obj.chrs is Some
                    &&& system.spec_name() == obj.name->0@
                    &&& system@.len() == obj.chrs->0@.len()
                    &&& forall|i: int|
                        0 <= i < system@.len() ==> {
                            &&& chromosome_fault(#[trigger] obj.chrs->0@[i], i) is None
                            &&& system@[i] == (
                                obj.chrs->0@[i].name->0@,
                                index_of(obj.chrs->0@[i].len)->0,
                            )
                        }
                },
                Err(error) => if obj.name is None {
                    error == DataFormatError::SystemName
                } else if obj.chrs is None {
                    error == DataFormatError::Chromosomes
                } else {
                    is_first_chromosome_fault(obj.chrs->0@, error)
                },
            },
    {
        let name: String = match obj.name {
            Some(name) => name,
            None => {
                return Err(DataFormatError::SystemName);
            },
        };
        let raw: Vec<RawChromosome> = match obj.chrs {
            Some(raw) => raw,
            None => {
                return Err(DataFormatError::Chromosomes);
            },
        };
        let n: usize = raw.len();
        let mut chrs: Vec<(String, usize)> = Vec::new();
        let mut i: usize = 0;
        while i < n
            invariant
                obj.name is Some,
                obj.chrs == Some(raw),
                n == raw@.len(),
                0 <= i <= n,
                chrs@.len() == i,
                forall|k: int|
                    0 <= k < i ==> {
                        &&& chromosome_fault(#[trigger] raw@[k], k) is None
                        &&& chrs@[k].0@ == raw@[k].name->0@
                        &&& chrs@[k].1 == index_of(raw@[k].len)->0
                    },
            decreases n - i,
        {
            let chr_name: String = match &raw[i].name {
                Some(chr_name) => chr_name.clone(),
                None => {
                    assert(chromosome_fault(raw@[i as int], i as int) == Some(
                        DataFormatError::ChromosomeName { index: i },
                    ));
                    return Err(DataFormatError::ChromosomeName { index: i });
                },
            };
            let len: Option<usize> = match raw[i].len {
                Some(number) => number.as_index(),
                None => None,
            };
            match len {
                Some(len) => {
                    chrs.push((chr_name, len));
                },
                None => {
                    assert(chromosome_fault(raw@[i as int], i as int) == Some(
                        DataFormatError::ChromosomeLength { index: i },
                    ));
                    return Err(DataFormatError::ChromosomeLength { index: i });
                },
            }
            i = i + 1;
        }
        Ok(CoordinateSystem::new(name, chrs))
    }

    /// The name of the assembly.
    pub fn name(&self) -> (name: &str)
        ensures
            name@ == self.spec_name(),
    {
        self.name.as_str()
    }

    /// The start of every chromosome in the global space, in chromosome
    /// order.
    pub fn chr_offsets(&self, padding: usize) -> (offsets: Vec<(String, usize)>)
        requires
            self@.len() > 0 ==> offset_at(self.lengths(), padding as nat, self@.len() - 1)
                <= usize::MAX,
        ensures
            offsets@.len() == self@.len(),
            forall|i: int|
                0 <= i < self@.len() ==> {
                    &&& (#[trigger] offsets@[i]).0@ == self@[i].0
                    &&& offsets@[i].1 == offset_at(self.lengths(), padding as nat, i)
                },
            forall|i: int|
                0 <= i < self@.len() - 1 ==> offsets@[i + 1].1 - (#[trigger] offsets@[i]).1
                    == self@[i].1 + padding,
            steps_positive(self.lengths(), padding as nat) ==> forall|i: int, j: int|
                0 <= i < j < self@.len() ==> (#[trigger] offsets@[i]).1 < (
                #[trigger] offsets@[j]).1,
    {
        let n: usize = self.chrs.len();
        let mut offsets: Vec<(String, usize)> = Vec::new();
        let mut offset: usize = 0;
        let mut i: usize = 0;
        while i < n
            invariant
                n == self.chrs@.len(),
                n == self@.len(),
                0 <= i <= n,
                n > 0 ==> offset_at(self.lengths(), padding as nat, n - 1) <= usize::MAX,
                i < n ==> offset == offset_at(self.lengths(), padding as nat, i as int),
                offsets@.len() == i,
                forall|k: int|
                    0 <= k < i ==> {
                        &&& (#[trigger] offsets@[k]).0@ == self@[k].0
                        &&& offsets@[k].1 == offset_at(self.lengths(), padding as nat, k)
                    },
            decreases n - i,
        {
            let name: String = self.chrs[i].0.clone();
            let len: usize = self.chrs[i].1;
            offsets.push((name, offset));
            if i + 1 < n {
                proof {
                    lemma_offset_monotonic(self.lengths(), padding as nat, i + 1, n - 1);
                }
                offset = offset + len + padding;
            }
            i = i + 1;
        }
        proof {
            let lengths = self.lengths();
            assert forall|i: int| 0 <= i < self@.len() - 1 implies offsets@[i + 1].1 - (
            #[trigger] offsets@[i]).1 == self@[i].1 + padding by {
                assert(offsets@[i + 1].1 == offset_at(lengths, padding as nat, i + 1));
            }
            if steps_positive(lengths, padding as nat) {
                assert forall|i: int, j: int| 0 <= i < j < self@.len() implies (
                #[trigger] offsets@[i]).1 < (#[trigger] offsets@[j]).1 by {
                    lemma_offset_strictly_monotonic(lengths, padding as nat, i, j);
                }
            }
        }
        offsets
    }

    /// The start and the end of every chromosome in the global space, in
    /// chromosome order.
    pub fn chr_ranges(&self, padding: usize) -> (ranges: Vec<(String, (usize, usize))>)
        requires
            span(self.lengths(), padding as nat) <= usize::MAX,
        ensures
            ranges@.len() == self@.len(),
            forall|i: int|
                0 <= i < self@.len() ==> {
                    &&& (#[trigger] ranges@[i]).0@ == self@[i].0
                    &&& ranges@[i].1.0 == offset_at(self.lengths(), padding as nat, i)
                    &&& ranges@[i].1.1 == offset_at(self.lengths(), padding as nat, i)
                        + self@[i].1
                },
            forall|i: int|
                0 <= i < self@.len() ==> (#[trigger] ranges@[i]).1.1 - ranges@[i].1.0
                    == self@[i].1,
            forall|i: int|
                0 <= i < self@.len() - 1 ==> ranges@[i + 1].1.0 - (#[trigger] ranges@[i]).1.1
                    == padding,
            self@.len() > 0 ==> ranges@[self@.len() - 1].1.1 == span(
                self.lengths(),
                padding as nat,
            ),
    {
        let n: usize = self.chrs.len();
        let mut ranges: Vec<(String, (usize, usize))> = Vec::new();
        let mut offset: usize = 0;
        let mut i: usize = 0;
        while i < n
            invariant
                n == self.chrs@.len(),
                n == self@.len(),
                0 <= i <= n,
                span(self.lengths(), padding as nat) <= usize::MAX,
                i < n ==> offset == offset_at(self.lengths(), padding as nat, i as int),
                ranges@.len() == i,
                forall|k: int|
                    0 <= k < i ==> {
                        &&& (#[trigger] ranges@[k]).0@ == self@[k].0
                        &&& ranges@[k].1.0 == offset_at(self.lengths(), padding as nat, k)
                        &&& ranges@[k].1.1 == offset_at(self.lengths(), padding as nat, k)
                            + self@[k].1
                    },
            decreases n - i,
        {
            let name: String = self.chrs[i].0.clone();
            let len: usize = self.chrs[i].1;
            proof {
                if i + 1 < n {
                    lemma_offset_monotonic(self.lengths(), padding as nat, i + 1, n - 1);
                }
            }
            let end: usize = offset + len;
            ranges.push((name, (offset, end)));
            if i + 1 < n {
                offset = end + padding;
            }
            i = i + 1;
        }
        proof {
            assert forall|i: int| 0 <= i < self@.len() - 1 implies ranges@[i + 1].1.0 - (
            #[trigger] ranges@[i]).1.1 == padding by {
                assert(ranges@[i + 1].1.0 == offset_at(self.lengths(), padding as nat, i + 1));
            }
        }
        ranges
    }

    /// The end of the last chromosome in the global space, or 0 where the
    /// system has no chromosome.
    pub fn total_length(&self, padding: usize) -> (total: usize)
        requires
            span(self.lengths(), padding as nat) <= usize::MAX,
        ensures
            total == span(self.lengths(), padding as nat),
    {
        match self.checked_total_length(padding) {
            Some(total) => total,
            None => 0,
        }
    }

    /// The end of the last chromosome in the global space, where it is a
    /// machine integer.
    pub fn checked_total_length(&self, padding: usize) -> (total: Option<usize>)
        ensures
            total == if span(self.lengths(), padding as nat) <= usize::MAX {
                Some(span(self.lengths(), padding as nat) as usize)
            } else {
                None
            },
    {
        let n: usize = self.chrs.len();
        if n == 0 {
            return Some(0);
        }
        let mut offset: usize = 0;
        let mut i: usize = 0;
        while i + 1 < n
            invariant
                n == self.chrs@.len(),
                n == self@.len(),
                0 <= i < n,
                offset == offset_at(self.lengths(), padding as nat, i as int),
            decreases n - i,
        {
            let len: usize = self.chrs[i].1;
            proof {
                lemma_offset_monotonic(self.lengths(), padding as nat, i + 1, n - 1);
            }
            let next: Option<usize> = match offset.checked_add(len) {
                Some(end) => end.checked_add(padding),
                None => None,
            };
            match next {
                Some(start) => {
                    offset = start;
                },
                None => {
                    return None;
                },
            }
            i = i + 1;
        }
        offset.checked_add(self.chrs[i].1)
    }

    /// The chromosome names, in order.
    pub fn chr_names(&self) -> (names: Vec<String>)
        ensures
            names@.len() == self@.len(),
            forall|i: int| 0 <= i < self@.len() ==> (#[trigger] names@[i])@ == self@[i].0,
    {
        let n: usize = self.chrs.len();
        let mut names: Vec<String> = Vec::new();
        let mut i: usize = 0;
        while i < n
            invariant
                n == self.chrs@.len(),
                n == self@.len(),
                0 <= i <= n,
                names@.len() == i,
                forall|k: int| 0 <= k < i ==> (#[trigger] names@[k])@ == self@[k].0,
            decreases n - i,
        {
            names.push(self.chrs[i].0.clone());
            i = i + 1;
        }
        names
    }

    /// The chromosomes, in order.
    pub fn chrs(&self) -> (chrs: &[(String, usize)])
        ensures
            chrs@.len() == self@.len(),
            forall|i: int|
                0 <= i < self@.len() ==> self@[i] == (
                    (#[trigger] chrs@[i]).0@,
                    chrs@[i].1 as nat,
                ),
    {
        self.chrs.as_slice()
    }

    /// The length of the first chromosome called `chr`, or `None` where no
    /// chromosome has that name.
    pub fn chr_len(&self, chr: &str) -> (len: Option<usize>)
        ensures
            len == match position_of(self.names(), chr@) {
                Some(i) => Some(self@[i].1 as usize),
                None => None,
            },
    {
        match self.chr_index(chr) {
            Some(i) => {
                assert(self@[i as int].1 == self.chrs@[i as int].1);
                Some(self.chrs[i].1)
            },
            None => None,
        }
    }

    /// The position of the first chromosome called `chr`, or `None` where
    /// no chromosome has that name.
    pub fn chr_index(&self, chr: &str) -> (index: Option<usize>)
        ensures
            match index {
                Some(i) => position_of(self.names(), chr@) == Some(i as int) && i < self@.len(),
                None => position_of(self.names(), chr@) is None,
            },
    {
        let wanted: String = chr.to_owned();
        let n: usize = self.chrs.len();
        let mut i: usize = 0;
        while i < n
            invariant
                n == self.chrs@.len(),
                n == self@.len(),
                0 <= i <= n,
                wanted@ == chr@,
                forall|k: int| 0 <= k < i ==> self@[k].0 != chr@,
            decreases n - i,
        {
            if self.chrs[i].0 == wanted {
                proof {
                    assert(is_first_named(self.names(), chr@, i as int));
                    lemma_position_of(self.names(), chr@);
                }
                return Some(i);
            }
            i = i + 1;
        }
        proof {
            lemma_position_of(self.names(), chr@);
            if self.names().contains(chr@) {
                let k = choose|k: int| 0 <= k < self.names().len() && self.names()[k] == chr@;
                assert(self@[k].0 == chr@);
            }
        }
        None
    }
}

} // verus!
