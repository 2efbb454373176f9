use ttd::list_order::sort_lists;
use ttd::smartlist::parse_list;

#[test]
fn loads_and_sorts_list_files_by_order_then_name() {
    let lists = vec![
        parse_list("---\nname: Three\norder: 3\n---\n", "three.list"),
        parse_list("---\nname: One\norder: 1\n---\n", "one.list"),
        parse_list("---\nname: Two\norder: 2\n---\n", "two.list"),
    ];
    let lists = sort_lists(lists);

    assert_eq!(lists.len(), 3);
    assert_eq!(lists[0].name, "One");
    assert_eq!(lists[0].order, Some(1));
    assert_eq!(lists[1].name, "Two");
    assert_eq!(lists[1].order, Some(2));
    assert_eq!(lists[2].name, "Three");
    assert_eq!(lists[2].order, Some(3));
}

#[test]
fn lists_without_order_sort_after_ordered_lists_alphabetically() {
    let lists = vec![
        parse_list("---\nname: Beta\n---\n", "beta.list"),
        parse_list("---\nname: Alpha\n---\n", "alpha.list"),
        parse_list("---\nname: First\norder: 1\n---\n", "first.list"),
    ];
    let lists = sort_lists(lists);

    assert_eq!(lists.len(), 3);
    assert_eq!(lists[0].name, "First");
    assert_eq!(lists[0].order, Some(1));
    assert_eq!(lists[1].name, "Alpha");
    assert_eq!(lists[1].order, None);
    assert_eq!(lists[2].name, "Beta");
    assert_eq!(lists[2].order, None);
}

#[test]
fn malformed_file_included_with_parse_error() {
    let lists = sort_lists(vec![parse_list("not done\ndue < today\n", "broken.list")]);

    assert_eq!(lists.len(), 1);
    assert!(lists[0].parse_error.is_some());
    assert_eq!(lists[0].name, "broken");
}

#[test]
fn equal_orders_fall_back_to_names_and_ties_keep_their_order() {
    let lists = vec![
        parse_list("---\nname: B\norder: 1\n---\n", "b1.list"),
        parse_list("---\nname: A\norder: 1\n---\n", "a.list"),
        parse_list("---\nname: B\norder: 1\n---\n", "b2.list"),
    ];
    let sorted = sort_lists(lists);
    let paths: Vec<&str> = sorted.iter().map(|l| l.source_path.as_str()).collect();
    assert_eq!(paths, vec!["a.list", "b1.list", "b2.list"]);
}

#[test]
fn sorting_no_lists_gives_none() {
    assert!(sort_lists(Vec::new()).is_empty());
}
