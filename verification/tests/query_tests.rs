use search_index::query_options::{OptionType, QueryOption};
use search_index::query_result::{QueryResult, ResultType};

#[test]
fn query_option_lists_each_kind_once() {
    let options = QueryOption::new()
        .add(OptionType::TfIdf)
        .add(OptionType::Vector)
        .add(OptionType::TfIdf)
        .build();
    assert_eq!(options.get_options(), &vec![OptionType::TfIdf, OptionType::Vector]);
    assert!(QueryOption::new().get_options().is_empty());
}

#[test]
fn query_option_keeps_first_add_order_and_at_most_three_kinds() {
    let mut q = QueryOption::new();
    q.add(OptionType::Bm25).add(OptionType::TfIdf).add(OptionType::Bm25);
    q.add(OptionType::Vector).add(OptionType::TfIdf).add(OptionType::Vector);
    let copy = q.clone();
    assert_eq!(q.get_options(), &vec![OptionType::Bm25, OptionType::TfIdf, OptionType::Vector]);
    assert_eq!(copy.get_options(), q.get_options());
    assert_eq!(q.get_options().len(), 3);
}

#[test]
fn query_option_default_is_tf_idf() {
    let options = QueryOption::default();
    assert_eq!(options.get_options(), &vec![OptionType::TfIdf]);
}

#[test]
fn query_result_groups_by_type() {
    let mut r: QueryResult<(u32, &str)> = QueryResult::new();
    r.add(ResultType::TfIdf, (1, "a"));
    r.add_vec(ResultType::Vector, &vec![(2, "b"), (3, "c")]);
    r.add(ResultType::TfIdf, (4, "d"));
    r.add_vec(ResultType::Bm25, &vec![]);
    let groups = r.into_groups();
    assert_eq!(groups.len(), 3);
    assert_eq!(groups[0], (ResultType::TfIdf, vec![(1, "a"), (4, "d")]));
    assert_eq!(groups[1], (ResultType::Vector, vec![(2, "b"), (3, "c")]));
    assert_eq!(groups[2], (ResultType::Bm25, vec![]));
}

#[test]
fn add_vec_is_adding_items_one_by_one() {
    let mut a: QueryResult<u8> = QueryResult::new();
    let mut b: QueryResult<u8> = QueryResult::new();
    a.add(ResultType::Vector, 9);
    b.add(ResultType::Vector, 9);
    a.add_vec(ResultType::TfIdf, &vec![1, 2, 3]);
    for x in [1, 2, 3] {
        b.add(ResultType::TfIdf, x);
    }
    assert_eq!(a.into_groups(), b.into_groups());
}
