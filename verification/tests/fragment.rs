use lance::fragment::{DataFile, Fragment};

#[test]
fn field_ids_are_sorted_and_unique() {
    let fragment = Fragment {
        id: 7,
        files: vec![
            DataFile::new("a.lance".to_string(), vec![5, 1, 3]),
            DataFile::new("b.lance".to_string(), vec![3, 2, 5, -4]),
            DataFile::new("c.lance".to_string(), vec![]),
        ],
    };
    assert_eq!(fragment.field_ids(), vec![-4, 1, 2, 3, 5]);
}

#[test]
fn field_ids_of_empty_fragment() {
    let fragment = Fragment { id: 0, files: vec![] };
    assert_eq!(fragment.field_ids(), Vec::<i32>::new());
}

#[test]
fn data_file_keeps_path_and_fields() {
    let file = DataFile::new("data/0.lance".to_string(), vec![2, 2, 1]);
    assert_eq!(file.path, "data/0.lance");
    assert_eq!(file.fields(), &vec![2, 2, 1]);
    let fragment = Fragment { id: 1, files: vec![file] };
    assert_eq!(fragment.field_ids(), vec![1, 2]);
}

#[test]
fn data_file_round_trips_through_its_message() {
    let message = lance::pb::DataFile { path: "x/y.lance".to_string(), fields: vec![9, 4, 4] };
    let file = DataFile::from_message(&message);
    assert_eq!(file.path, "x/y.lance");
    assert_eq!(file.fields(), &vec![9, 4, 4]);
    assert_eq!(file.to_message(), message);
}

#[test]
fn fragment_is_built_from_its_message() {
    let message = lance::pb::DataFragment {
        id: 42,
        files: vec![
            lance::pb::DataFile { path: "a".to_string(), fields: vec![3, 0] },
            lance::pb::DataFile { path: "b".to_string(), fields: vec![1] },
        ],
    };
    let fragment = Fragment::from_message(&message);
    assert_eq!(fragment.id, 42);
    assert_eq!(fragment.files.len(), 2);
    assert_eq!(fragment.files[0].path, "a");
    assert_eq!(fragment.files[1].fields(), &vec![1]);
    assert_eq!(fragment.field_ids(), vec![0, 1, 3]);
}
