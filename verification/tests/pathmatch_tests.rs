use flexfind::pathmatch::path_has_prefix;

#[test]
fn prefix_respects_separator_boundary() {
    assert!(path_has_prefix("c:\\users\\hiro", "c:\\users\\hiro"));
    assert!(path_has_prefix("c:\\users\\hiro\\docs", "c:\\users\\hiro"));
    assert!(!path_has_prefix("c:\\users\\hiroko", "c:\\users\\hiro"));
    assert!(!path_has_prefix("c:\\users\\hiroko\\docs", "c:\\users\\hiro"));
}

#[test]
fn prefix_matches_unc_roots() {
    assert!(path_has_prefix("\\\\nas\\share\\a.txt", "\\\\nas\\share"));
    assert!(!path_has_prefix("\\\\nas\\share2\\a.txt", "\\\\nas\\share"));
}

#[test]
fn forward_slash_is_a_separator_too() {
    assert!(path_has_prefix("c:/users/hiro/docs", "c:/users/hiro"));
    assert!(!path_has_prefix("c:/users", "c:/users/hiro"));
}
