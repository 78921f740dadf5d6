use itools::bool_to_option;
use itools::utils::is_image_extension;

#[test]
fn utils_test_bool_to_option_false() {
    assert_eq!(None, bool_to_option(false, || 5))
}

#[test]
fn utils_test_bool_to_option_true() {
    assert_eq!(Some(5), bool_to_option(true, || 5))
}

#[test]
fn utils_test_bool_to_option_closure_not_called_on_false() {
    let mut called = false;

    bool_to_option(false, || {
        called = true;
        5
    });

    assert_eq!(false, called);
}

#[test]
fn image_extensions_are_the_four_known_ones() {
    assert!(is_image_extension("gif"));
    assert!(is_image_extension("jpg"));
    assert!(is_image_extension("jpeg"));
    assert!(is_image_extension("png"));
    assert!(!is_image_extension("txt"));
    assert!(!is_image_extension("JPG"));
    assert!(!is_image_extension(""));
}
