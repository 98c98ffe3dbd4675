use detecta_fraude::evaluation::Times;
use detecta_fraude::index::stats::QueryStats;
use detecta_fraude::report::{
    characterize, classify, count_heavy, slowest, spread, table, Rank, Row, Spread,
};

fn row(min_ns: u64, leaves: u32, primary_hit: bool, early_hit: bool) -> Row {
    Row {
        times: Times {
            min_ns,
            max_ns: min_ns + 7,
        },
        work: QueryStats {
            nodes: 3 * leaves,
            leaves,
            blocks: 2 * leaves,
            partitions: 1,
            primary_hit,
            early_hit,
        },
        count: (leaves % 6) as u8,
    }
}

#[test]
fn numbers_are_spread() {
    let xs = vec![50, 10, 40, 20, 30];
    assert_eq!(
        spread(&xs),
        Spread {
            count: 5,
            total: 150,
            p50: 30,
            p90: 50,
            p99: 50,
            p999: 50,
            max: 50,
        }
    );
    let xs: Vec<u64> = (0..1000).rev().collect();
    let s = spread(&xs);
    assert_eq!((s.p50, s.p90, s.p99, s.p999, s.max), (500, 899, 989, 998, 999));
    assert_eq!(s.total, 499_500);
    let none = spread(&vec![]);
    assert_eq!((none.count, none.total, none.p50, none.max), (0, 0, 0, 0));
    let huge = spread(&vec![u64::MAX, u64::MAX]);
    assert_eq!(huge.total, 2 * u64::MAX as u128);
}

#[test]
fn the_slowest_come_first() {
    let xs = vec![5, 9, 1, 9, 7];
    assert_eq!(slowest(&xs, 3), vec![1, 3, 4]);
    assert_eq!(slowest(&xs, 9), vec![1, 3, 4, 0, 2]);
    assert_eq!(slowest(&xs, 0), Vec::<usize>::new());
    assert_eq!(slowest(&vec![], 4), Vec::<usize>::new());
}

#[test]
fn rows_are_summed_up() {
    let rows = vec![
        row(400, 4, false, false),
        row(100, 1, true, true),
        row(300, 3, false, true),
        row(200, 2, true, true),
    ];
    let s = characterize(&rows);
    assert_eq!(s.time, spread(&vec![100, 200, 300, 400]));
    assert_eq!(s.leaves, spread(&vec![1, 2, 3, 4]));
    assert_eq!(s.primary, 2);
    assert_eq!(s.early_time, spread(&vec![100, 200, 300]));
    assert_eq!(s.late_time, spread(&vec![400]));
}

#[test]
fn rows_are_ranked() {
    let base: Vec<Row> = (0..10).map(|i| row(100 * i, i as u32, false, false)).collect();
    let suspects = vec![row(450, 9, false, false), row(0, 8, false, false), row(2000, 50, true, true)];
    let ranks = classify(&suspects, &base);
    assert_eq!(
        ranks,
        vec![
            Rank {
                leaves_below: 9,
                times_below: 5,
                heavy: true,
            },
            Rank {
                leaves_below: 8,
                times_below: 0,
                heavy: false,
            },
            Rank {
                leaves_below: 10,
                times_below: 10,
                heavy: true,
            },
        ]
    );
    assert_eq!(count_heavy(&ranks), 2);
    let alone = classify(&suspects, &vec![]);
    assert_eq!(count_heavy(&alone), 0);
}

#[test]
fn rows_make_a_table() {
    let text = table(&vec![row(12, 3, true, false), row(0, 10, false, true)]);
    assert_eq!(
        String::from_utf8(text).unwrap(),
        "idx,min_ns,max_ns,nodes,leaves,blocks,parts,primary,early,count\n\
         0,12,19,9,3,6,1,1,0,3\n\
         1,0,7,30,10,20,1,0,1,4\n"
    );
}
