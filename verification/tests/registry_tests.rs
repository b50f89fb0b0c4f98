//! The named registry: lifecycle, listing, info.

use vamana::errors::IndexError;
use vamana::metric::Metric;
use vamana::model::FullPrecisionStrategy;
use vamana::registry::Registry;

#[test]
fn duplicate_name_then_destroy_then_create() {
    let mut reg = Registry::new();
    reg.create_index("x", 4, Metric::L2, 8, 16, 0).unwrap();
    assert_eq!(
        reg.create_index("x", 4, Metric::L2, 8, 16, 0),
        Err(IndexError::AlreadyExists)
    );
    reg.destroy_index("x").unwrap();
    reg.create_index("x", 4, Metric::L2, 8, 16, 0).unwrap();
    assert!(reg.index_exists("x"));
}

#[test]
fn destroy_absent_reports_not_found() {
    let mut reg = Registry::new();
    assert_eq!(reg.destroy_index("nope"), Err(IndexError::NotFound));
    assert_eq!(reg.get_index("nope").err().unwrap(), IndexError::NotFound);
    assert_eq!(reg.get_info("nope").err().unwrap(), IndexError::NotFound);
    assert_eq!(reg.save_index("nope").err().unwrap(), IndexError::NotFound);
}

#[test]
fn create_rejects_zero_dimension() {
    let mut reg = Registry::new();
    assert_eq!(
        reg.create_index("bad", 0, Metric::L2, 8, 16, 0),
        Err(IndexError::InvalidArgument)
    );
    assert!(!reg.index_exists("bad"));
}

#[test]
fn info_and_listing() {
    let dm = FullPrecisionStrategy::new();
    let mut reg = Registry::new();
    reg.create_index("a", 3, Metric::L2, 8, 16, 42).unwrap();
    reg.create_index("b", 2, Metric::InnerProduct, 4, 9, 7).unwrap();
    assert_eq!(reg.add_vector("a", &dm, &vec![1, 2, 3]), Ok(0));
    assert_eq!(
        reg.add_vector("missing", &dm, &vec![1, 2, 3]),
        Err(IndexError::NotFound)
    );
    let info = reg.get_info("a").unwrap();
    assert_eq!(info.name, "a");
    assert_eq!(info.dimension, 3);
    assert_eq!(info.count, 1);
    assert_eq!(info.metric, Metric::L2);
    assert_eq!(info.max_degree, 8);
    assert_eq!(info.build_complexity, 16);
    assert_eq!(info.alpha, 42);
    assert!(!info.read_only);
    let list = reg.list_indexes();
    assert_eq!(list.len(), 2);
    assert_eq!(list[0].name, "a");
    assert_eq!(list[1].name, "b");
    assert_eq!(list[1].metric, Metric::InnerProduct);
    assert_eq!(list[1].count, 0);
}

#[test]
fn load_rejects_duplicate_and_garbage() {
    let dm = FullPrecisionStrategy::new();
    let mut reg = Registry::new();
    reg.create_index("x", 2, Metric::L2, 4, 8, 0).unwrap();
    reg.add_vector("x", &dm, &vec![1, 2]).unwrap();
    let bytes = reg.save_index("x").unwrap();
    assert_eq!(
        reg.load_index("x", "p", &bytes, 0),
        Err(IndexError::AlreadyExists)
    );
    let garbage = vec![1u8, 2, 3, 4];
    assert_eq!(
        reg.load_index("y", "p", &garbage, 0),
        Err(IndexError::MalformedInput)
    );
    reg.load_index("y", "p", &bytes, 0).unwrap();
    let info = reg.get_info("y").unwrap();
    assert!(info.read_only);
    assert_eq!(info.dimension, 2);
    assert_eq!(info.count, 1);
    // A zero build complexity falls back to the stored one.
    assert_eq!(info.build_complexity, 8);
    // An explicit build complexity overrides it.
    reg.load_index("z", "p", &bytes, 31).unwrap();
    assert_eq!(reg.get_info("z").unwrap().build_complexity, 31);
}
