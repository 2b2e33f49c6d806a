use sharkbench::result_table::{compare_lines, get_updated_contents, write_result_contents};
use sharkbench::text::Ordering;

fn strings(values: &[&str]) -> Vec<String> {
    values.iter().map(|v| v.to_string()).collect()
}

fn take_new_line(_old_values: &Vec<String>, new_values: &Vec<String>) -> Vec<String> {
    new_values.clone()
}

fn take_bigger_number(old_values: &Vec<String>, new_values: &Vec<String>) -> Vec<String> {
    if old_values[0].parse::<i32>().unwrap() < new_values[0].parse::<i32>().unwrap() {
        new_values.clone()
    } else {
        old_values.clone()
    }
}

#[test]
fn should_compare_single_entry_by_version() {
    assert_eq!(compare_lines(&vec!["1.2"], &vec!["1.10"]), Ordering::Less);
    assert_eq!(compare_lines(&vec!["1.2"], &vec!["1.1"]), Ordering::Greater);
}

#[test]
fn should_compare_single_entry_alphabetically() {
    assert_eq!(compare_lines(&vec!["a"], &vec!["b"]), Ordering::Less);
    assert_eq!(compare_lines(&vec!["b"], &vec!["a"]), Ordering::Greater);
}

#[test]
fn should_compare_second_entry_by_version() {
    assert_eq!(compare_lines(&vec!["a", "1.2"], &vec!["a", "1.10"]), Ordering::Less);
    assert_eq!(compare_lines(&vec!["a", "1.2"], &vec!["a", "1.1"]), Ordering::Greater);
}

#[test]
fn should_compare_second_entry_alphabetically() {
    assert_eq!(compare_lines(&vec!["a", "a"], &vec!["a", "b"]), Ordering::Less);
    assert_eq!(compare_lines(&vec!["a", "b"], &vec!["a", "a"]), Ordering::Greater);
}

#[test]
fn should_compare_first_entry_alphabetically() {
    assert_eq!(compare_lines(&vec!["a", "b"], &vec!["b", "a"]), Ordering::Less);
    assert_eq!(compare_lines(&vec!["b", "a"], &vec!["a", "b"]), Ordering::Greater);
}

#[test]
fn should_update_single_line() {
    let original_contents = "a,b,c,d,e,f\n1,2,3,4,5,6\n";
    let descriptor_values = strings(&["1", "2", "3"]);
    let value_values = strings(&["0", "0", "0"]);

    let expected_contents = strings(&["1,2,3,0,0,0"]);
    assert_eq!(
        get_updated_contents(original_contents, &descriptor_values, &value_values, take_new_line),
        expected_contents
    );
}

#[test]
fn should_take_bigger_number() {
    let original_contents = "a,b,c\n1,2,3,10,20\n";
    let descriptor_values = strings(&["1", "2", "3"]);

    let value_values = strings(&["5", "20"]);
    let expected_contents = strings(&["1,2,3,10,20"]);
    assert_eq!(
        get_updated_contents(
            original_contents,
            &descriptor_values,
            &value_values,
            take_bigger_number
        ),
        expected_contents
    );

    let value_values = strings(&["15", "20"]);
    let expected_contents = strings(&["1,2,3,15,20"]);
    assert_eq!(
        get_updated_contents(
            original_contents,
            &descriptor_values,
            &value_values,
            take_bigger_number
        ),
        expected_contents
    );
}

#[test]
fn should_add_new_line_if_not_exists() {
    let original_contents = "a,b,c,d,e,f\n1,2,3,4,5,6\n";
    let descriptor_values = strings(&["1", "2", "4"]);
    let value_values = strings(&["0", "0", "0"]);

    let expected_contents = strings(&["1,2,3,4,5,6", "1,2,4,0,0,0"]);
    assert_eq!(
        get_updated_contents(original_contents, &descriptor_values, &value_values, take_new_line),
        expected_contents
    );
}

#[test]
fn should_sort() {
    let original_contents = "a,b,c,d,e,f\n1,2,3,_,_,_\n1,1,2,_,_,_\n1,2,4,_,_,_\n";
    let descriptor_values = strings(&["1", "2", "3"]);
    let value_values = strings(&["_", "_", "_"]);

    let expected_contents = strings(&["1,1,2,_,_,_", "1,2,3,_,_,_", "1,2,4,_,_,_"]);
    assert_eq!(
        get_updated_contents(original_contents, &descriptor_values, &value_values, take_new_line),
        expected_contents
    );
}

#[test]
fn writing_identical_row_twice_keeps_one_row() {
    let descriptor_values = strings(&["rust", "1.74"]);
    let value_values = strings(&["123", "456"]);

    let once = get_updated_contents("", &descriptor_values, &value_values, take_new_line);
    assert_eq!(once, strings(&["rust,1.74,123,456"]));

    let contents = format!("lang,version,time,mem\n{}\n", once.join("\n"));
    let twice = get_updated_contents(&contents, &descriptor_values, &value_values, take_new_line);
    assert_eq!(twice, strings(&["rust,1.74,123,456"]));
}

#[test]
fn renders_header_and_sorted_rows() {
    let descriptors = vec![
        ("language".to_string(), "rust".to_string()),
        ("version".to_string(), "1.74".to_string()),
    ];
    let values = vec![("time".to_string(), "42".to_string())];
    let rendered = write_result_contents("", &descriptors, &values, take_new_line);
    assert_eq!(rendered, "language,version,time\nrust,1.74,42\n");

    let updated = write_result_contents(&rendered, &descriptors, &values, take_new_line);
    assert_eq!(updated, rendered);
}
