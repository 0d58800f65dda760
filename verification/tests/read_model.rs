//! The reference model of the read path.
use arbitrary::Unstructured;
use holt::api::tree::Tree;
use holt::read_model::{
    delimiter, file_id, key, live_dir_id, missing_key, prefix, prefix_id, value, Action, Expected,
    ExpectedKeyEntry, Input, ReadModel, DIRS, FILES_PER_DIR,
};

#[test]
fn keys_have_a_fixed_form() {
    assert_eq!(key(3, 7), b"meta/03/tenant:03|bucket#07@shard\\part/0007");
    assert_eq!(key(13, 260), b"meta/05/tenant:01|bucket#04@shard\\part/0260");
    assert_eq!(key(0, 12345), b"meta/00/tenant:00|bucket#09@shard\\part/12345");
    assert_eq!(missing_key(2, 5), b"meta/02/missing:0261");
    assert_eq!(missing_key(9, 5), b"absent/01/missing:0005");
    assert_eq!(prefix(4), b"meta/04/");
    assert_eq!(prefix(8), b"absent/00/");
}

#[test]
fn values_name_their_file_and_revision() {
    let v = value(3, 0x0102, 9);
    assert_eq!(v.len(), 256);
    assert_eq!(&v[..4], &[3, 2, 1, 9]);
    assert_eq!(v[255], 9);
}

#[test]
fn delimiters_go_round() {
    let all: Vec<u8> = (0..6).map(delimiter).collect();
    assert_eq!(all, b"/:|#@\\");
    assert_eq!(delimiter(7), b':');
}

#[test]
fn drawing_reduces_bytes_into_the_range() {
    let bytes = [9, 13, 200];
    let mut u = Unstructured::new(&bytes);
    assert_eq!(live_dir_id(&mut u), Some(1));
    assert_eq!(prefix_id(&mut u), Some(3));
    assert_eq!(file_id(&mut u), Some(200));
    assert_eq!(file_id(&mut u), Some(0));
    assert!(u.is_empty());
}

#[test]
fn an_action_is_a_kind_and_its_operands() {
    let put = [5, 10, 1, 30, 255];
    let mut u = Unstructured::new(&put);
    // dir 10 % 8, file 0x011e % 289, rev 255
    assert_eq!(Action::arbitrary(&mut u), Some(Action::Put { dir: 2, file: 286, rev: 255 }));
    let scan = [3, 12, 8];
    let mut u = Unstructured::new(&scan);
    assert_eq!(
        Action::arbitrary(&mut u),
        Some(Action::ScanDelimiter { dir: 2, delimiter: 2 })
    );
    let mut u = Unstructured::new(&[]);
    assert_eq!(Action::arbitrary(&mut u), Some(Action::Get { dir: 0, file: 0 }));
}

#[test]
fn a_run_is_a_count_and_its_actions() {
    let run = Input::from_bytes(&[3, 6, 4, 1, 2, 7, 99]).unwrap();
    assert_eq!(
        run.actions,
        [Action::CheckpointReopen, Action::Delete { dir: 1, file: 2 }, Action::Reopen]
    );
    assert_eq!(Input::from_bytes(&[48]).unwrap().actions.len(), 48);
    assert!(Input::from_bytes(&[49]).unwrap().actions.is_empty());
    assert!(Input::from_bytes(&[]).unwrap().actions.is_empty());
}

#[test]
fn the_model_keeps_the_last_value_of_a_key() {
    let mut m = ReadModel::new();
    m.insert(b"b".to_vec(), b"1".to_vec());
    m.insert(b"a".to_vec(), b"2".to_vec());
    m.insert(b"b".to_vec(), b"3".to_vec());
    assert_eq!(m.get(b"a"), Some(b"2".to_vec()));
    assert_eq!(m.get(b"b"), Some(b"3".to_vec()));
    assert_eq!(m.get(b"ab"), None);
    assert!(m.remove(b"a"));
    assert!(!m.remove(b"a"));
    assert_eq!(m.get(b"a"), None);
}

#[test]
fn listings_roll_up_by_the_delimiter() {
    let mut m = ReadModel::new();
    for k in [&b"meta/00/b/2"[..], b"meta/00/a", b"meta/00/b/1", b"meta/01/x", b"meta/00/c"] {
        m.insert(k.to_vec(), Vec::new());
    }
    assert_eq!(
        m.expected_key_entries(0, b'/'),
        [
            ExpectedKeyEntry::Key(b"meta/00/a".to_vec()),
            ExpectedKeyEntry::CommonPrefix(b"meta/00/b/".to_vec()),
            ExpectedKeyEntry::Key(b"meta/00/c".to_vec()),
        ]
    );
    assert!(m.expected_key_entries(2, b'/').is_empty());
    assert!(!m.is_prefix_empty(1));
    assert!(m.is_prefix_empty(2));
}

#[test]
fn every_run_starts_with_all_files() {
    let m = ReadModel::preload();
    for dir in 0..DIRS {
        for file in 0..FILES_PER_DIR {
            assert_eq!(m.get(&key(dir, file)), Some(value(dir, file, 0)));
        }
        assert!(!m.is_prefix_empty(dir));
        assert_eq!(
            m.expected_key_entries(dir, b':'),
            [ExpectedKeyEntry::CommonPrefix(
                format!("meta/{dir:02}/tenant:").into_bytes()
            )]
        );
    }
    assert!(m.is_prefix_empty(DIRS));
    assert_eq!(m.get(&missing_key(0, 0)), None);
}

#[test]
fn actions_change_and_question_the_model() {
    let mut m = ReadModel::new();
    let at = Action::Get { dir: 1, file: 2 };
    assert!(matches!(m.apply(at), Expected::Value(None)));
    assert!(matches!(m.apply(Action::Put { dir: 1, file: 2, rev: 3 }), Expected::Stored));
    match m.apply(at) {
        Expected::Value(Some(v)) => assert_eq!(v, value(1, 2, 3)),
        _ => panic!("the file is there"),
    }
    assert!(matches!(m.apply(Action::PrefixEmpty { dir: 1 }), Expected::PrefixEmpty(false)));
    assert!(matches!(
        m.apply(Action::GetMissing { dir: 1, file: 2 }),
        Expected::Value(None)
    ));
    match m.apply(Action::ScanDelimiter { dir: 1, delimiter: 2 }) {
        Expected::Entries(lines) => assert_eq!(
            lines,
            [ExpectedKeyEntry::CommonPrefix(b"meta/01/tenant:01|".to_vec())]
        ),
        _ => panic!("a listing"),
    }
    assert!(matches!(m.apply(Action::Reopen), Expected::Kept));
    assert!(matches!(m.apply(Action::CheckpointReopen), Expected::Kept));
    assert!(matches!(m.apply(Action::Delete { dir: 1, file: 2 }), Expected::Removed(true)));
    assert!(matches!(m.apply(Action::Delete { dir: 1, file: 2 }), Expected::Removed(false)));
}

#[test]
fn a_tree_answers_as_the_model_does() {
    let mut tree = Tree::open_in_memory().unwrap();
    let mut model = ReadModel::new();
    for dir in 0..DIRS {
        for file in 0..64u16 {
            tree.put(&key(dir, file), &value(dir, file, 0)).unwrap();
            model.apply(Action::Put { dir, file, rev: 0 });
        }
    }
    for dir in 0..DIRS {
        for file in [0u16, 31, 63, 64, 200] {
            match model.apply(Action::Get { dir, file }) {
                Expected::Value(v) => assert_eq!(tree.get(&key(dir, file)).unwrap(), v),
                _ => panic!("a value"),
            }
        }
        assert_eq!(tree.get(&missing_key(dir, 3)).unwrap(), None);
    }
}
