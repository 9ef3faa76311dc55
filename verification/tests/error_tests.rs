use csvpeek::error::{find_similar_column, levenshtein_distance};

fn names(v: &[&str]) -> Vec<String> {
    v.iter().map(|s| s.to_string()).collect()
}

#[test]
fn edit_distances() {
    assert_eq!(levenshtein_distance("", ""), 0);
    assert_eq!(levenshtein_distance("", "abc"), 3);
    assert_eq!(levenshtein_distance("abc", ""), 3);
    assert_eq!(levenshtein_distance("abc", "abc"), 0);
    assert_eq!(levenshtein_distance("nmae", "name"), 1);
    assert_eq!(levenshtein_distance("nam", "name"), 1);
    assert_eq!(levenshtein_distance("kitten", "sitting"), 3);
    assert_eq!(levenshtein_distance("flaw", "lawn"), 2);
    assert_eq!(levenshtein_distance("saturday", "sunday"), 3);
    assert_eq!(levenshtein_distance("é", "e"), 1);
    assert_eq!(levenshtein_distance("a", "b"), 1);
}

#[test]
fn an_exchange_of_neighbours_is_one_edit() {
    assert_eq!(levenshtein_distance("ab", "ba"), 1);
    assert_eq!(levenshtein_distance("name", "nmae"), 1);
    assert_eq!(levenshtein_distance("abcd", "acbd"), 1);
    assert_eq!(levenshtein_distance("abcd", "badc"), 2);
    assert_eq!(levenshtein_distance("abc", "cab"), 2);
    assert_eq!(levenshtein_distance("abc", "cba"), 2);
    assert_eq!(levenshtein_distance("ca", "abc"), 3);
    assert_eq!(levenshtein_distance("aab", "aba"), 1);
    assert_eq!(levenshtein_distance("a", "a"), 0);
    assert_eq!(levenshtein_distance("ab", "ab"), 0);
    assert_eq!(levenshtein_distance("teh", "the"), 1);
    assert_eq!(levenshtein_distance("recieve", "receive"), 1);
}

#[test]
fn a_name_in_another_case_is_suggested_first() {
    let headers = names(&["nama", "NAME", "name"]);
    assert_eq!(find_similar_column("Name", &headers), Some("NAME".to_string()));
    assert_eq!(find_similar_column("ÄRGER", &names(&["arger", "ärger"])), Some("ärger".to_string()));
}

#[test]
fn the_first_of_the_nearest_names_is_suggested() {
    let headers = names(&["salary", "name", "nape", "age"]);
    assert_eq!(find_similar_column("nmae", &headers), Some("name".to_string()));
    assert_eq!(find_similar_column("nabe", &headers), Some("name".to_string()));
    assert_eq!(find_similar_column("napes", &headers), Some("nape".to_string()));
    assert_eq!(find_similar_column("NAPES", &headers), Some("nape".to_string()));
    assert_eq!(find_similar_column("ag", &headers), Some("age".to_string()));
}

#[test]
fn names_further_than_two_edits_away_are_not_suggested() {
    let headers = names(&["salary", "name"]);
    assert_eq!(find_similar_column("nonexistent", &headers), None);
    assert_eq!(find_similar_column("n", &headers), None);
    assert_eq!(find_similar_column("na", &headers), Some("name".to_string()));
    assert_eq!(find_similar_column("x", &[]), None);
}
