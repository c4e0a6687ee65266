use bitturbulence::pieces::have::{have_text, restore_have, PersistError};

#[test]
fn save_and_load_roundtrip() {
    let have = vec![vec![true, false, true], vec![false, false]];
    let text = have_text(&have);
    let loaded = restore_have(Some(&text)).unwrap().unwrap();
    assert_eq!(have, loaded);
}

#[test]
fn load_missing_returns_none() {
    let result = restore_have(None).unwrap();
    assert!(result.is_none());
}

#[test]
fn partial_have_preserved() {
    let have = vec![vec![true, false, false, true]];
    let text = have_text(&have);
    let loaded = restore_have(Some(&text)).unwrap().unwrap();
    assert_eq!(loaded[0], vec![true, false, false, true]);
}

#[test]
fn load_corrupted_json_returns_error() {
    assert_eq!(restore_have(Some("not valid json {{{{")), Err(PersistError::Parse));
}

#[test]
fn save_and_load_empty_bitfield() {
    let have: Vec<Vec<bool>> = vec![];
    let text = have_text(&have);
    let loaded = restore_have(Some(&text)).unwrap().unwrap();
    assert!(loaded.is_empty());
}

#[test]
fn have_text_is_json_rows() {
    assert_eq!(have_text(&[vec![true, false], vec![]]), "[[true,false],[]]");
    assert_eq!(restore_have(Some("[[false],[true,true]]")), Ok(Some(vec![vec![false], vec![true, true]])));
    assert_eq!(restore_have(Some("[1,2]")), Err(PersistError::Parse));
}
