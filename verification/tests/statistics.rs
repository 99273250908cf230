use libribzip2::block::symbol_statistics::kmeansclustering::KMeansProblem;
use libribzip2::block::symbol_statistics::{
    BlockWisePropabilityMap, IntoFrequencyTable, SinglePropabilityMap,
};
use libribzip2::block::zle::ZleSymbol;

#[test]
pub fn single_table_counts_all_symbols() {
    let mut map = SinglePropabilityMap::create(3);
    for _ in 0..49 {
        map.report_symbol(&ZleSymbol::RunA);
    }
    map.report_symbol(&ZleSymbol::Number(2));
    let reported = map.finalize();
    assert_eq!(reported.reported_frequencies.len(), 2);
    assert_eq!(reported.reported_frequencies[0].frequencies, vec![49, 0, 0, 1]);
    assert_eq!(reported.reported_frequencies[1].frequencies, vec![49, 0, 0, 1]);
    // 50 symbols: one group, and one for the end of the block
    assert_eq!(reported.selectors, vec![0, 0]);
    map.report_symbol(&ZleSymbol::RunB);
    assert_eq!(map.finalize().selectors, vec![0, 0, 0]);
    assert_eq!(SinglePropabilityMap::create(1).finalize().selectors, vec![0]);
}

#[test]
pub fn frequency_tables_list_their_symbols() {
    let table = IntoFrequencyTable { frequencies: vec![4, 0, 7, 1] };
    assert_eq!(
        table.iterate(),
        vec![
            (ZleSymbol::RunA, 4),
            (ZleSymbol::RunB, 0),
            (ZleSymbol::Number(1), 7),
            (ZleSymbol::Number(2), 1),
        ]
    );
}

#[test]
pub fn groups_are_counted_one_by_one() {
    let mut map = BlockWisePropabilityMap::create(2, 2, 4);
    for _ in 0..50 {
        map.report_symbol(&ZleSymbol::RunA);
    }
    assert_eq!(map.maps, vec![vec![50, 0, 0]]);
    for _ in 0..50 {
        map.report_symbol(&ZleSymbol::Number(1));
    }
    for _ in 0..10 {
        map.report_symbol(&ZleSymbol::RunA);
    }
    assert_eq!(map.maps, vec![vec![50, 0, 0], vec![0, 0, 50]]);
    assert_eq!(map.current_frequencies, vec![10, 0, 0]);
    let reported = map.finalize();
    // the third group lies nearer to the first
    assert_eq!(reported.selectors, vec![0, 1, 0]);
    assert_eq!(reported.reported_frequencies.len(), 2);
    assert_eq!(reported.reported_frequencies[0].frequencies, vec![300_000, 0, 0]);
    assert_eq!(reported.reported_frequencies[1].frequencies, vec![0, 0, 500_000]);
}

#[test]
pub fn clustering_by_hand() {
    let data = vec![vec![0u8, 0], vec![0, 2], vec![10, 10], vec![10, 13], vec![1, 1]];
    let problem = KMeansProblem { dimension: 2, data: &data, num_iterations: 2, num_clusters: 2 };
    let result = problem.solve();
    // the first centres are the points 0 and 2
    assert_eq!(result.assignments, vec![0, 0, 1, 1, 0]);
    // (0 + 0 + 1) / 3 and (0 + 2 + 1) / 3, (10 + 10) / 2 and (10 + 13) / 2, times 10000
    assert_eq!(result.means, vec![vec![3333, 10000], vec![100000, 115000]]);
    let problem = KMeansProblem { dimension: 2, data: &data, num_iterations: 0, num_clusters: 3 };
    let result = problem.solve();
    assert_eq!(result.assignments, vec![0; 5]);
    assert_eq!(result.means, vec![vec![0, 0], vec![0, 20000], vec![100000, 130000]]);
    // a tie goes to the first cluster; a cluster without points gets the origin
    let same = vec![vec![5u8], vec![5], vec![5]];
    let problem = KMeansProblem { dimension: 1, data: &same, num_iterations: 1, num_clusters: 2 };
    let result = problem.solve();
    assert_eq!(result.assignments, vec![0, 0, 0]);
    assert_eq!(result.means, vec![vec![50000], vec![0]]);
}
