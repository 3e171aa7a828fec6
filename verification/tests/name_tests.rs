use better_remove::name::{numbered_name, resolve_name, u64_to_dec};
use better_remove::paths::basename_of;

fn listing(names: &[&[u8]]) -> Vec<Vec<u8>> {
    names.iter().map(|n| n.to_vec()).collect()
}

#[test]
fn decimal_digits_exact() {
    assert_eq!(u64_to_dec(0), b"0".to_vec());
    assert_eq!(u64_to_dec(7), b"7".to_vec());
    assert_eq!(u64_to_dec(10), b"10".to_vec());
    assert_eq!(u64_to_dec(105), b"105".to_vec());
    assert_eq!(u64_to_dec(9876543210), b"9876543210".to_vec());
}

#[test]
fn numbered_name_appends_digits() {
    assert_eq!(numbered_name(&b"report.txt".to_vec(), 1), b"report.txt1".to_vec());
    assert_eq!(numbered_name(&b"a".to_vec(), 12), b"a12".to_vec());
}

#[test]
fn resolve_noncolliding_keeps_basename() {
    let l = listing(&[b"other.txt", b"third"]);
    let r = resolve_name(&l, &b"report.txt".to_vec());
    assert_eq!(r, b"report.txt".to_vec());
}

#[test]
fn resolve_in_empty_trash_keeps_basename() {
    let l: Vec<Vec<u8>> = Vec::new();
    let r = resolve_name(&l, &b"report.txt".to_vec());
    assert_eq!(r, b"report.txt".to_vec());
}

#[test]
fn resolve_single_collision_appends_one() {
    let l = listing(&[b"report.txt"]);
    let r = resolve_name(&l, &b"report.txt".to_vec());
    assert_eq!(r, b"report.txt1".to_vec());
}

#[test]
fn resolve_after_k_copies_appends_k_plus_one() {
    let l = listing(&[b"report.txt", b"report.txt1", b"report.txt2", b"report.txt3"]);
    let r = resolve_name(&l, &b"report.txt".to_vec());
    assert_eq!(r, b"report.txt4".to_vec());
}

#[test]
fn resolve_skips_nothing_on_gap() {
    // the smallest free suffix wins even when later ones are taken
    let l = listing(&[b"report.txt", b"report.txt2"]);
    let r = resolve_name(&l, &b"report.txt".to_vec());
    assert_eq!(r, b"report.txt1".to_vec());
}

#[test]
fn basename_of_plain_file() {
    assert_eq!(basename_of(&b"report.txt".to_vec()), Some(b"report.txt".to_vec()));
}

#[test]
fn basename_of_nested_path() {
    assert_eq!(basename_of(&b"/original/absolute/path/report.txt".to_vec()), Some(b"report.txt".to_vec()));
}

#[test]
fn basename_of_trailing_slash() {
    assert_eq!(basename_of(&b"/some/dir/".to_vec()), Some(b"dir".to_vec()));
}

#[test]
fn basename_of_only_slashes_is_none() {
    assert_eq!(basename_of(&b"///".to_vec()), None);
    assert_eq!(basename_of(&b"".to_vec()), None);
}
