use dfs::abstraction::environment::Environment;
use dfs::database::cell::CacheCell;
use dfs::database::file::File;
use dfs::database::rep::Rep;
use dfs::database::Replica;
use dfs::simulation::runtime::replica::handles::file_system::SeekFrom;

#[test]
fn page_positions_follow_each_other() {
    assert_eq!(File::page_position(0), SeekFrom::Start(0));
    assert_eq!(File::page_position(1), SeekFrom::Start(8000));
    assert_eq!(File::page_position(3), SeekFrom::Start(24000));
}

#[test]
fn fresh_rep_hands_out_first_cache_slot() {
    let mut rep = Rep::new(Environment::new(()));
    let (info, index) = rep.get_free_page();
    assert!(info.is_none());
    assert_eq!(index, 0);
}

#[test]
fn cache_cell_starts_zeroed() {
    let cell = CacheCell::new();
    assert_eq!(cell.get_slice(10, 4), &[0, 0, 0, 0]);
    assert_eq!(cell.get_slice(0, 8000).len(), 8000);
}

#[test]
fn replica_can_be_created() {
    let _replica = Replica::new();
    let _default = Replica::default();
}
