use kvs::generation::{parse_generation, sorted_gen_list, stale_generations};

#[test]
fn generation_of_file_names() {
    assert_eq!(parse_generation("7.x"), Some(7));
    assert_eq!(parse_generation("0.x"), Some(0));
    assert_eq!(parse_generation("+12.x"), Some(12));
    assert_eq!(parse_generation("5.x.x"), Some(5));
    assert_eq!(parse_generation("18446744073709551615.x"), Some(u64::MAX));
    assert_eq!(parse_generation("18446744073709551616.x"), None);
    assert_eq!(parse_generation(".x"), None);
    assert_eq!(parse_generation("a.x"), None);
    assert_eq!(parse_generation("7.log"), None);
    assert_eq!(parse_generation("7"), None);
    assert_eq!(parse_generation("-1.x"), None);
    assert_eq!(parse_generation("engine"), None);
}

#[test]
fn generations_listed_in_order_once() {
    let names: Vec<String> = ["10.x", "engine", "2.x", "3.log", "1.x", "02.x"].iter().map(|s| s.to_string()).collect();
    assert_eq!(sorted_gen_list(&names), vec![1, 2, 10]);
    assert_eq!(sorted_gen_list(&Vec::new()), Vec::<u64>::new());
}

#[test]
fn stale_generations_are_below_safe_point() {
    assert_eq!(stale_generations(&vec![5, 1, 9, 3, 7], 6), vec![5, 1, 3]);
    assert_eq!(stale_generations(&vec![5, 6], 5), Vec::<u64>::new());
}
