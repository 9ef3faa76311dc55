use csv::StringRecord;
use csvpeek::schema::{ColumnTypeAccumulator, SchemaInferrer};
use csvpeek::types::{ColumnSchema, DataType};

fn column(cells: &[&str]) -> ColumnSchema {
    let mut acc = ColumnTypeAccumulator::new("c".to_string());
    for cell in cells {
        acc.add_value(cell);
    }
    acc.finalize()
}

#[test]
fn the_type_of_a_column_is_the_least_that_holds_its_values() {
    assert_eq!(column(&["1", "2", "3"]).inferred_type, DataType::Integer);
    assert_eq!(column(&["1", "2", "3", "2.5"]).inferred_type, DataType::Float);
    assert_eq!(column(&["1.5", "2.5"]).inferred_type, DataType::Float);
    assert_eq!(column(&["true", "false", "TRUE"]).inferred_type, DataType::Boolean);
    assert_eq!(column(&["1", "2", "abc"]).inferred_type, DataType::String);
    assert_eq!(column(&["1", "2.5", "abc"]).inferred_type, DataType::String);
    assert_eq!(column(&["true", "1"]).inferred_type, DataType::String);
    assert_eq!(column(&["1", "", "NA", "2"]).inferred_type, DataType::Integer);
    assert_eq!(column(&["", "null"]).inferred_type, DataType::String);
    assert_eq!(column(&[]).inferred_type, DataType::String);
}

#[test]
fn nulls_are_counted() {
    let schema = column(&["1", "", "NA", "2", " n/a ", "x"]);
    assert_eq!(schema.name, "c");
    assert_eq!(schema.total_count, 6);
    assert_eq!(schema.null_count, 3);
}

#[test]
fn the_first_three_distinct_values_are_the_samples() {
    let schema = column(&["", " b ", "a", "b", "NA", "a", "c", "d"]);
    assert_eq!(schema.sample_values, vec!["b", "a", "c"]);
    assert_eq!(column(&["x", "x"]).sample_values, vec!["x"]);
    assert!(column(&["", "null"]).sample_values.is_empty());
}

#[test]
fn an_inferrer_follows_every_column() {
    let header = StringRecord::from(vec!["id", "name", "score", "active"]);
    let mut inferrer = SchemaInferrer::new(&header);
    for row in [
        vec!["1", "Alice", "1.5", "true"],
        vec!["2", "Bob", "2", "false", "extra"],
        vec!["3", "", "x"],
    ] {
        inferrer.add_record(&StringRecord::from(row)).unwrap();
    }
    let schema = inferrer.finalize();
    let names: Vec<&str> = schema.iter().map(|c| c.name.as_str()).collect();
    assert_eq!(names, vec!["id", "name", "score", "active"]);
    let types: Vec<DataType> = schema.iter().map(|c| c.inferred_type).collect();
    assert_eq!(
        types,
        vec![DataType::Integer, DataType::String, DataType::String, DataType::Boolean]
    );
    let nulls: Vec<u64> = schema.iter().map(|c| c.null_count).collect();
    assert_eq!(nulls, vec![0, 1, 0, 1]);
    assert!(schema.iter().all(|c| c.total_count == 3));
    assert_eq!(schema[3].sample_values, vec!["true", "false"]);
}
