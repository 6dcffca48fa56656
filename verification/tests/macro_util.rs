use relm4::macro_util::{default_relm4_path, idents_to_snake_case, self_type};

#[test]
fn snake_case_joins_lowercased_idents() {
    let idents = vec!["Gtk".to_string(), "Box".to_string()];
    assert_eq!(idents_to_snake_case(&idents, 0), "_gtk_box_0");
    let idents = vec!["Label".to_string()];
    assert_eq!(idents_to_snake_case(&idents, 417), "_label_417");
}

#[test]
fn snake_case_without_idents_is_the_number() {
    assert_eq!(idents_to_snake_case(&[], 65535), "_65535");
}

#[test]
fn snake_case_lowercases_every_letter() {
    let idents = vec!["HeaderBar".to_string(), "ÄBC".to_string()];
    assert_eq!(idents_to_snake_case(&idents, 10), "_headerbar_äbc_10");
}

#[test]
fn relm4_path_is_global() {
    let path = default_relm4_path();
    assert!(path.leading_colon);
    assert_eq!(path.segments, vec!["relm4".to_string()]);
}

#[test]
fn self_type_is_a_single_segment() {
    let ty = self_type();
    assert!(!ty.leading_colon);
    assert_eq!(ty.segments, vec!["Self".to_string()]);
}

#[test]
fn different_numbers_give_different_names() {
    let a = vec!["Box".to_string()];
    let b = vec!["Box".to_string(), "1".to_string()];
    assert_ne!(idents_to_snake_case(&a, 11), idents_to_snake_case(&b, 1));
    assert_eq!(idents_to_snake_case(&b, 1), "_box_1_1");
    assert_eq!(idents_to_snake_case(&a, 11), "_box_11");
}
