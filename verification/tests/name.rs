use wythoff::name::{coxmat_to_name, digit, is_nameable};

#[test]
fn name_of_the_four_dimensional_default() {
    let m: [[u8; 4]; 4] = [[1, 3, 2, 2], [3, 1, 4, 2], [2, 4, 1, 3], [2, 2, 3, 1]];
    assert!(is_nameable(&m));
    assert_eq!(coxmat_to_name(m), "1312412231.flag");
}

#[test]
fn name_of_a3() {
    let m: [[u8; 3]; 3] = [[1, 3, 2], [3, 1, 3], [2, 3, 1]];
    assert_eq!(coxmat_to_name(m), "131231.flag");
}

#[test]
fn name_reads_only_the_lower_triangle() {
    let lower: [[u8; 3]; 3] = [[1, 0, 0], [5, 1, 0], [2, 7, 1]];
    let upper: [[u8; 3]; 3] = [[1, 200, 99], [5, 1, 36], [2, 7, 1]];
    assert!(is_nameable(&upper));
    assert_eq!(coxmat_to_name(lower), "151271.flag");
    assert_eq!(coxmat_to_name(upper), coxmat_to_name(lower));
}

#[test]
fn name_length_is_triangle_plus_extension() {
    let m: [[u8; 5]; 5] = [[9; 5]; 5];
    let name = coxmat_to_name(m);
    assert_eq!(name.chars().count(), 5 * 6 / 2 + 5);
    assert_eq!(name, "999999999999999.flag");
}

#[test]
fn name_of_the_empty_matrix_is_the_extension() {
    let m: [[u8; 0]; 0] = [];
    assert!(is_nameable(&m));
    assert_eq!(coxmat_to_name(m), ".flag");
}

#[test]
fn name_uses_letters_from_ten_on() {
    assert_eq!(coxmat_to_name([[10u8]]), "a.flag");
    assert_eq!(coxmat_to_name([[35u8]]), "z.flag");
    assert_eq!(coxmat_to_name([[1u8, 0], [12, 1]]), "1c1.flag");
}

#[test]
fn digits_agree_with_the_standard_library() {
    for n in 0u8..36 {
        assert_eq!(Some(digit(n)), char::from_digit(n as u32, 36));
    }
}

#[test]
fn entries_from_thirty_six_on_have_no_name() {
    assert!(!is_nameable(&[[36u8]]));
    assert!(!is_nameable(&[[1u8, 2], [255, 1]]));
    assert!(!is_nameable(&[[1u8, 2, 2], [3, 1, 2], [2, 3, 36]]));
    assert!(is_nameable(&[[35u8, 36], [35, 35]]));
}
