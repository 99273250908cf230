use vstd::prelude::*;
use crate::block::zle::{ZleSymbol, symbol_index, symbol_at, frequencies_of, count_symbol, lemma_count_symbol_bound};
use crate::block::symbol_statistics::kmeansclustering::{KMeansProblem, KMeansResult, well_shaped, MAX_CENTER, lloyd, data_view, means_view};

pub mod kmeansclustering;

verus! {

/// How the Huffman tables of a block are chosen.
///
/// * `Single`: one table for the whole block.
/// * `BlockWise`: the groups of 50 symbols are clustered by their frequencies, and
///   every cluster gets a table of its own.
#[derive(Clone, Copy)]
#[non_exhaustive]
pub enum EncodingStrategy {
    BlockWise { num_clusters: usize, num_iterations: usize },
    Single,
}

/// The number of symbols that share one selector.
pub const GROUP_SIZE: usize = 50;

/// A frequency table: the frequency of `RunA`, of `RunB`, then of the numbers from
/// one on.
pub struct IntoFrequencyTable {
    pub frequencies: Vec<usize>,
}

/// The frequency tables of a block, and for every group of symbols the table that it
/// uses.
pub struct ReportedSymbols {
    pub reported_frequencies: Vec<IntoFrequencyTable>,
    pub selectors: Vec<u8>,
}

impl IntoFrequencyTable {
    /// The symbols with their frequencies, by place.
    pub fn iterate(self) -> (entries: Vec<(ZleSymbol, usize)>)
        requires
            self.frequencies@.len() <= 257,
        ensures
            entries@.len() == self.frequencies@.len(),
            forall|i: int|
                0 <= i < entries@.len() ==> (#[trigger] entries@[i]).1 == self.frequencies@[i]
                    && entries@[i].0 == symbol_at(i),
    {
        let mut entries: Vec<(ZleSymbol, usize)> = Vec::new();
        let mut symbol: usize = 0;
        while symbol < self.frequencies.len()
            invariant
                symbol <= self.frequencies@.len() <= 257,
                entries@.len() == symbol,
                forall|i: int|
                    0 <= i < entries@.len() ==> (#[trigger] entries@[i]).1 == self.frequencies@[i]
                        && entries@[i].0 == symbol_at(i),
            decreases self.frequencies@.len() - symbol,
        {
            let frequency = self.frequencies[symbol];
            if symbol == 0 {
                entries.push((ZleSymbol::RunA, frequency));
            } else if symbol == 1 {
                entries.push((ZleSymbol::RunB, frequency));
            } else {
                entries.push((ZleSymbol::Number((symbol - 1) as u8), frequency));
            }
            symbol = symbol + 1;
        }
        entries
    }
}

/// Copies a list of numbers.
pub fn copy_frequencies(source: &Vec<usize>) -> (copy: Vec<usize>)
    ensures
        copy@ == source@,
{
    let mut copy: Vec<usize> = Vec::new();
    let mut i: usize = 0;
    while i < source.len()
        invariant
            i <= source@.len(),
            copy@ == source@.take(i as int),
        decreases source@.len() - i,
    {
        copy.push(source[i]);
        i = i + 1;
        proof {
            assert(copy@ =~= source@.take(i as int));
        }
    }
    proof {
        assert(source@.take(i as int) =~= source@);
    }
    copy
}

/// The number of selectors of a block of `symbol_count` symbols under the single
/// strategy: one for every group begun, and one more.
pub open spec fn single_selector_count(symbol_count: int) -> int {
    (symbol_count + GROUP_SIZE - 1) / (GROUP_SIZE as int) + 1
}

/// Counts the symbols of a block for one table.
pub struct SinglePropabilityMap {
    pub frequencies: Vec<usize>,
    pub symbol_count: usize,
}

impl SinglePropabilityMap {
    /// An empty count for an alphabet of `size` bytes.
    pub fn create(size: usize) -> (map: Self)
        requires
            size < usize::MAX,
        ensures
            map.frequencies@ == frequencies_of(Seq::empty(), (size + 1) as nat),
            map.symbol_count == 0,
    {
        let map = SinglePropabilityMap { frequencies: vec![0; size + 1], symbol_count: 0 };
        proof {
            assert(map.frequencies@ =~= frequencies_of(Seq::empty(), (size + 1) as nat));
        }
        map
    }

    /// Counts one more symbol.
    pub fn report_symbol(&mut self, symbol: &ZleSymbol)
        requires
            symbol_index(*symbol) < old(self).frequencies@.len(),
            old(self).frequencies@[symbol_index(*symbol)] < usize::MAX,
            old(self).symbol_count < usize::MAX,
        ensures
            final(self).symbol_count == old(self).symbol_count + 1,
            final(self).frequencies@ == old(self).frequencies@.update(
                symbol_index(*symbol),
                (old(self).frequencies@[symbol_index(*symbol)] + 1) as usize,
            ),
    {
        self.symbol_count = self.symbol_count + 1;
        let index: usize = match symbol {
            ZleSymbol::RunA => 0,
            ZleSymbol::RunB => 1,
            ZleSymbol::Number(i) => *i as usize + 1,
        };
        let count = self.frequencies[index];
        self.frequencies[index] = count + 1;
    }

    /// The result: the one table twice, since a block has at least two, and a selector
    /// 0 for every group begun and one more.
    pub fn finalize(&mut self) -> (reported: ReportedSymbols)
        requires
            old(self).symbol_count < usize::MAX - 100,
        ensures
            reported.reported_frequencies@.len() == 2,
            reported.reported_frequencies@[0].frequencies@ == old(self).frequencies@,
            reported.reported_frequencies@[1].frequencies@ == old(self).frequencies@,
            reported.selectors@.len() == single_selector_count(old(self).symbol_count as int),
            forall|g: int| 0 <= g < reported.selectors@.len() ==> #[trigger] reported.selectors@[g] == 0,
            *final(self) == *old(self),
    {
        let first = IntoFrequencyTable { frequencies: copy_frequencies(&self.frequencies) };
        let second = IntoFrequencyTable { frequencies: copy_frequencies(&self.frequencies) };
        let mut reported_frequencies: Vec<IntoFrequencyTable> = Vec::new();
        reported_frequencies.push(first);
        reported_frequencies.push(second);
        let count: usize = (self.symbol_count + GROUP_SIZE - 1) / GROUP_SIZE + 1;
        ReportedSymbols { reported_frequencies, selectors: vec![0u8; count] }
    }
}

/// Counts the symbols of a block group by group.
pub struct BlockWisePropabilityMap {
    pub current_frequencies: Vec<u8>,
    pub maps: Vec<Vec<u8>>,
    pub size: usize,
    pub counter: usize,
    pub num_iterations: usize,
    pub num_clusters: usize,
}

/// The frequencies of the symbols, as bytes.
pub open spec fn group_frequencies(symbols: Seq<ZleSymbol>, len: nat) -> Seq<u8> {
    Seq::new(len, |index: int| count_symbol(symbols, index) as u8)
}

/// The symbols of the group with the number `g`: fifty symbols, or those that are
/// left.
pub open spec fn group(symbols: Seq<ZleSymbol>, g: int) -> Seq<ZleSymbol> {
    symbols.subrange(
        50 * g,
        if 50 * g + 50 <= symbols.len() {
            50 * g + 50
        } else {
            symbols.len() as int
        },
    )
}

/// The frequencies of every group of symbols, the group that is still open
/// included.
pub open spec fn groups_of(symbols: Seq<ZleSymbol>, len: nat) -> Seq<Seq<u8>> {
    Seq::new((symbols.len() / 50 + 1) as nat, |g: int| group_frequencies(group(symbols, g), len))
}

/// The frequency tables as lists of numbers.
pub open spec fn frequency_views(tables: Seq<IntoFrequencyTable>) -> Seq<Seq<usize>> {
    Seq::new(tables.len(), |t: int| tables[t].frequencies@)
}

/// The centres of clusters as frequency tables.
pub open spec fn centers_as_frequencies(centers: Seq<Seq<u64>>) -> Seq<Seq<usize>> {
    Seq::new(centers.len(), |c: int| Seq::new(centers[c].len(), |d: int| centers[c][d] as usize))
}

/// One more symbol raises its place in the frequencies of its group by one.
pub proof fn lemma_group_frequencies_push(symbols: Seq<ZleSymbol>, symbol: ZleSymbol, len: nat)
    requires
        0 <= symbol_index(symbol) < len,
        symbols.len() < 255,
    ensures
        group_frequencies(symbols.push(symbol), len) == group_frequencies(symbols, len).update(
            symbol_index(symbol),
            (group_frequencies(symbols, len)[symbol_index(symbol)] + 1) as u8,
        ),
{
    let longer = symbols.push(symbol);
    assert(longer.drop_last() =~= symbols);
    assert forall|index: int| 0 <= index < len implies group_frequencies(longer, len)[index]
        == group_frequencies(symbols, len).update(
        symbol_index(symbol),
        (group_frequencies(symbols, len)[symbol_index(symbol)] + 1) as u8,
    )[index] by {
        lemma_count_symbol_bound(symbols, index);
    }
    assert(group_frequencies(longer, len) =~= group_frequencies(symbols, len).update(
        symbol_index(symbol),
        (group_frequencies(symbols, len)[symbol_index(symbol)] + 1) as u8,
    ));
}

impl BlockWisePropabilityMap {
    /// Whether the count is in order: the open group holds fewer than 50 symbols, and
    /// every table has a place for every symbol.
    pub open spec fn wf(&self) -> bool {
        &&& self.size < 0x10000
        &&& self.counter < GROUP_SIZE
        &&& self.current_frequencies@.len() == self.size + 1
        &&& forall|i: int| 0 <= i <= self.size ==> #[trigger] self.current_frequencies@[i] <= self.counter
        &&& well_shaped(self.maps@, self.size + 1)
    }

    /// An empty count for an alphabet of `size` bytes.
    pub fn create(size: usize, num_clusters: usize, num_iterations: usize) -> (map: Self)
        requires
            size < 0x10000,
        ensures
            map.wf(),
            map.maps@.len() == 0,
            map.counter == 0,
            map.size == size,
            map.num_clusters == num_clusters,
            map.num_iterations == num_iterations,
            map.current_frequencies@ == group_frequencies(Seq::empty(), (size + 1) as nat),
    {
        let map = Self {
            current_frequencies: vec![0; size + 1],
            maps: Vec::new(),
            counter: 0,
            size,
            num_clusters,
            num_iterations,
        };
        proof {
            assert(map.current_frequencies@ =~= group_frequencies(Seq::empty(), (size + 1) as nat));
        }
        map
    }

    /// Counts one more symbol in the open group; the fiftieth closes the group.
    pub fn report_symbol(&mut self, symbol: &ZleSymbol)
        requires
            old(self).wf(),
            symbol_index(*symbol) <= old(self).size,
        ensures
            final(self).wf(),
            final(self).size == old(self).size,
            final(self).num_clusters == old(self).num_clusters,
            final(self).num_iterations == old(self).num_iterations,
            old(self).counter + 1 < GROUP_SIZE ==> {
                &&& final(self).counter == old(self).counter + 1
                &&& final(self).maps@ == old(self).maps@
                &&& final(self).current_frequencies@ == old(self).current_frequencies@.update(
                    symbol_index(*symbol),
                    (old(self).current_frequencies@[symbol_index(*symbol)] + 1) as u8,
                )
            },
            old(self).counter + 1 == GROUP_SIZE ==> {
                &&& final(self).counter == 0
                &&& final(self).maps@.len() == old(self).maps@.len() + 1
                &&& final(self).maps@.drop_last() == old(self).maps@
                &&& final(self).maps@.last()@ == old(self).current_frequencies@.update(
                    symbol_index(*symbol),
                    (old(self).current_frequencies@[symbol_index(*symbol)] + 1) as u8,
                )
                &&& final(self).current_frequencies@ == group_frequencies(
                    Seq::empty(),
                    (old(self).size + 1) as nat,
                )
            },
    {
        let index: usize = match symbol {
            ZleSymbol::RunA => 0,
            ZleSymbol::RunB => 1,
            ZleSymbol::Number(i) => *i as usize + 1,
        };
        let count = self.current_frequencies[index];
        self.current_frequencies[index] = count + 1;
        self.counter = self.counter + 1;
        if self.counter >= GROUP_SIZE {
            let mut fresh: Vec<u8> = vec![0; self.size + 1];
            proof {
                assert(fresh@ =~= group_frequencies(Seq::empty(), (self.size + 1) as nat));
            }
            std::mem::swap(&mut self.current_frequencies, &mut fresh);
            let ghost before = self.maps@;
            self.maps.push(fresh);
            self.counter = 0;
            proof {
                assert(self.maps@.drop_last() =~= before);
                assert forall|p: int| 0 <= p < self.maps@.len() implies (#[trigger] self.maps@[p])@.len()
                    == self.size + 1 by {
                    if p < before.len() {
                        assert(self.maps@[p] == before[p]);
                    }
                }
            }
        }
    }

    /// Closes the open group and clusters the groups. Returns for every cluster the
    /// frequencies of its centre, scaled by 10000, and for every group its cluster.
    pub fn finalize(&mut self) -> (reported: ReportedSymbols)
        requires
            old(self).wf(),
            1 <= old(self).num_clusters <= 256,
            old(self).maps@.len() < 0x1_0000_0000,
        ensures
            reported.reported_frequencies@.len() == old(self).num_clusters,
            forall|c: int|
                0 <= c < reported.reported_frequencies@.len() ==> (
                #[trigger] reported.reported_frequencies@[c]).frequencies@.len() == old(self).size + 1
                    && forall|d: int|
                    0 <= d <= old(self).size ==> #[trigger] reported.reported_frequencies@[c].frequencies@[d]
                        <= MAX_CENTER,
            reported.selectors@.len() == old(self).maps@.len() + 1,
            forall|g: int|
                0 <= g < reported.selectors@.len() ==> (#[trigger] reported.selectors@[g] as int) < old(
                    self,
                ).num_clusters,
            reported.selectors@ == lloyd(
                data_view(old(self).maps@).push(old(self).current_frequencies@),
                old(self).num_clusters as int,
                old(self).size + 1,
                old(self).num_iterations as nat,
            ).1,
            frequency_views(reported.reported_frequencies@) == centers_as_frequencies(
                lloyd(
                    data_view(old(self).maps@).push(old(self).current_frequencies@),
                    old(self).num_clusters as int,
                    old(self).size + 1,
                    old(self).num_iterations as nat,
                ).0,
            ),
    {
        let mut fresh: Vec<u8> = vec![0; self.size + 1];
        std::mem::swap(&mut self.current_frequencies, &mut fresh);
        let ghost before = self.maps@;
        self.maps.push(fresh);
        self.counter = 0;
        proof {
            assert forall|p: int| 0 <= p < self.maps@.len() implies (#[trigger] self.maps@[p])@.len()
                == self.size + 1 by {
                if p < before.len() {
                    assert(self.maps@[p] == before[p]);
                }
            }
            assert(data_view(self.maps@) =~= data_view(before).push(old(self).current_frequencies@));
        }
        let p = KMeansProblem {
            dimension: self.size + 1,
            data: self.maps.as_slice(),
            num_iterations: self.num_iterations,
            num_clusters: self.num_clusters,
        };
        let tables: KMeansResult = p.solve();
        let KMeansResult { means, assignments } = tables;
        let ghost centers = means_view(means@);
        let mut reported_frequencies: Vec<IntoFrequencyTable> = Vec::new();
        let mut c: usize = 0;
        while c < means.len()
            invariant
                c <= means@.len(),
                reported_frequencies@.len() == c,
                forall|k: int| 0 <= k < c ==> (#[trigger] reported_frequencies@[k]).frequencies@ == means@[k]@,
            decreases means@.len() - c,
        {
            let ghost prev = reported_frequencies@;
            reported_frequencies.push(IntoFrequencyTable { frequencies: copy_frequencies(&means[c]) });
            proof {
                assert forall|k: int| 0 <= k < c + 1 implies (#[trigger] reported_frequencies@[k]).frequencies@
                    == means@[k]@ by {
                    if k < c {
                        assert(reported_frequencies@[k] == prev[k]);
                    }
                }
            }
            c = c + 1;
        }
        proof {
            assert(frequency_views(reported_frequencies@) =~= centers_as_frequencies(centers)) by {
                assert forall|t: int| 0 <= t < means@.len() implies frequency_views(
                    reported_frequencies@,
                )[t] == centers_as_frequencies(centers)[t] by {
                    assert(reported_frequencies@[t].frequencies@ == means@[t]@);
                    assert(centers[t].len() == means@[t]@.len());
                    assert forall|d: int| 0 <= d < means@[t]@.len() implies means@[t]@[d] == (
                    centers[t][d] as usize) by {
                        assert(means@[t]@[d] <= MAX_CENTER);
                    }
                    assert(means@[t]@ =~= centers_as_frequencies(centers)[t]);
                }
            }
        }
        ReportedSymbols { reported_frequencies, selectors: assignments }
    }
}

} // verus!
