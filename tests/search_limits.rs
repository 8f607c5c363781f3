use mexx::board::Board;
use mexx::search::{allotted_time, FlagError, FlagSet, Limits, Mode, StandardClock};
use mexx::tree::{Tree, ValueKind};

fn flags() -> FlagSet {
    FlagSet {
        binc: false,
        winc: false,
        btime: false,
        wtime: false,
        depth: false,
        nodes: false,
        movetime: false,
        infinite: false,
        perft: false,
        bulk: false,
    }
}

#[test]
fn standard_clock_allots_a_twentieth() {
    assert_eq!(allotted_time(60000, 0, None), 3000);
    assert_eq!(allotted_time(60000, 1000, Some(10)), 6500);
    let clock = StandardClock { btime: 60000, wtime: 60000, binc: 0, winc: 0, movestogo: None };
    let l = clock.limits(0);
    assert_eq!(l.movetime, Some(3000));
    assert_eq!(l.maxnodes, None);
    let clock = StandardClock { btime: 1000, wtime: 40000, binc: 0, winc: 400, movestogo: None };
    assert_eq!(clock.limits(1).movetime, Some(2200));
}

#[test]
fn stops_on_each_budget() {
    let l = Limits { maxnodes: Some(100), maxdepth: None, movetime: None, movestogo: None };
    assert!(!l.should_stop(99, 50, 100_000));
    assert!(l.should_stop(100, 0, 0));
    let l = Limits { maxnodes: None, maxdepth: Some(5), movetime: None, movestogo: None };
    assert!(!l.should_stop(1 << 40, 5, 0));
    assert!(l.should_stop(0, 6, 0));
    let l = Limits { maxnodes: None, maxdepth: None, movetime: Some(3000), movestogo: None };
    assert!(!l.should_stop(0, 0, 3000));
    assert!(l.should_stop(0, 0, 3001));
    let none = Limits { maxnodes: None, maxdepth: None, movetime: None, movestogo: None };
    assert!(!none.should_stop(u64::MAX, u16::MAX, u64::MAX));
}

#[test]
fn node_budget_overshoots_by_less_than_a_checkpoint() {
    let start = Board::new((1 << 6) | (1 << 42), 1 | (1 << 48), 0, 0, 0, 0);
    let mut t = Tree::new(start, 1 << 16, ValueKind::MaterialCount);
    let limits = Limits { maxnodes: Some(5000), maxdepth: None, movetime: None, movestogo: None };
    let mut depth = 0;
    loop {
        depth = t.run_until_checkpoint(depth).0;
        if limits.should_stop(t.nodes(), depth, 0) {
            break;
        }
    }
    assert!(t.nodes() >= 5000 && t.nodes() < 5000 + 4096);
}

#[test]
fn validation_accepts_each_family() {
    assert_eq!(flags().validate(), Ok(Mode::Direct));
    let f = FlagSet { nodes: true, depth: true, ..flags() };
    assert_eq!(f.validate(), Ok(Mode::Direct));
    let f = FlagSet { binc: true, winc: true, btime: true, wtime: true, ..flags() };
    assert_eq!(f.validate(), Ok(Mode::Standard));
    let f = FlagSet { perft: true, bulk: true, ..flags() };
    assert_eq!(f.validate(), Ok(Mode::Perft(true)));
    let f = FlagSet { infinite: true, ..flags() };
    assert_eq!(f.validate(), Ok(Mode::Direct));
}

#[test]
fn validation_rejects_each_error() {
    let f = FlagSet { btime: true, wtime: true, ..flags() };
    assert_eq!(f.validate(), Err(FlagError::MissingClockFlags));
    let f = FlagSet { binc: true, winc: true, btime: true, wtime: true, nodes: true, ..flags() };
    assert_eq!(f.validate(), Err(FlagError::MixedFamilies));
    let f = FlagSet { infinite: true, movetime: true, ..flags() };
    assert_eq!(f.validate(), Err(FlagError::InfiniteWithLimits));
    let f = FlagSet { bulk: true, ..flags() };
    assert_eq!(f.validate(), Err(FlagError::BulkWithoutPerft));
    let f = FlagSet { perft: true, depth: true, ..flags() };
    assert_eq!(f.validate(), Err(FlagError::PerftWithLimits));
    assert!(FlagError::BulkWithoutPerft.message().contains("bulk"));
}
