//! The calling-convention heuristics and name normalization.

use dump_syms::name::{demangle, fix_mangled_name, replace_all, str_lt, FuncName};

fn expect_unknown(r: FuncName, name: &str, sps: u32) {
    match r {
        FuncName::Unknown((n, s)) => {
            assert_eq!(n, name);
            assert_eq!(s, sps);
        },
        FuncName::Undecorated(n) => panic!("expected Unknown, got Undecorated({})", n),
    }
}

#[test]
fn stdcall_suffix_gives_size() {
    expect_unknown(FuncName::get_unknown("_Foo@12".to_string()), "Foo", 12);
}

#[test]
fn fastcall_suffix_subtracts_register_args() {
    expect_unknown(FuncName::get_unknown("@Foo@20".to_string()), "Foo", 12);
}

#[test]
fn fastcall_below_floor_collapses_to_zero() {
    expect_unknown(FuncName::get_unknown("@Foo@4".to_string()), "Foo", 0);
}

#[test]
fn paren_after_first_char_is_left_unmodified() {
    expect_unknown(FuncName::get_unknown("_Foo(int)".to_string()), "_Foo(int)", 0);
}

#[test]
fn colon_after_first_char_is_left_unmodified() {
    expect_unknown(FuncName::get_unknown("_ns::f@4".to_string()), "_ns::f@4", 0);
}

#[test]
fn empty_name_yields_empty_unknown() {
    expect_unknown(FuncName::get_unknown(String::new()), "", 0);
}

#[test]
fn plain_name_without_lead_is_left_unmodified() {
    expect_unknown(FuncName::get_unknown("Foo@12".to_string()), "Foo@12", 0);
}

#[test]
fn underscore_without_suffix_is_stripped() {
    expect_unknown(FuncName::get_unknown("_Foo".to_string()), "Foo", 0);
}

#[test]
fn at_lead_without_suffix_is_left_unmodified() {
    expect_unknown(FuncName::get_unknown("@Foo".to_string()), "@Foo", 0);
}

#[test]
fn unparsable_suffix_strips_underscore_only() {
    expect_unknown(FuncName::get_unknown("_Foo@bar".to_string()), "Foo@bar", 0);
}

#[test]
fn overflowing_suffix_is_not_a_size() {
    expect_unknown(
        FuncName::get_unknown("_Foo@99999999999".to_string()),
        "Foo@99999999999",
        0,
    );
}

#[test]
fn empty_suffix_digits_strip_underscore_only() {
    expect_unknown(FuncName::get_unknown("_Foo@".to_string()), "Foo@", 0);
}

#[test]
fn fix_mangled_name_strips_decorations() {
    let fixed = fix_mangled_name("public: int __cdecl Foo::bar(void)".to_string());
    assert_eq!(fixed, "int Foo::bar");
}

#[test]
fn fix_mangled_name_strips_access_specifiers() {
    assert_eq!(fix_mangled_name("private: void A::b".to_string()), "void A::b");
    assert_eq!(fix_mangled_name("protected: void A::b".to_string()), "void A::b");
}

#[test]
fn replace_all_is_leftmost_nonoverlapping() {
    assert_eq!(replace_all("a   b", "  ", " "), "a  b");
    assert_eq!(replace_all("xxx", "xx", "y"), "yx");
    assert_eq!(replace_all("abc", "zz", "y"), "abc");
}

#[test]
fn str_lt_is_lexicographic() {
    assert!(str_lt("aaa", "bbb"));
    assert!(!str_lt("bbb", "aaa"));
    assert!(str_lt("ab", "abc"));
    assert!(!str_lt("abc", "ab"));
    assert!(!str_lt("abc", "abc"));
}

#[test]
fn demangle_resolves_itanium_names() {
    match demangle("_Z3fooi") {
        FuncName::Undecorated(n) => assert_eq!(n, "foo(int)"),
        FuncName::Unknown((n, _)) => panic!("expected Undecorated, got Unknown({})", n),
    }
}

#[test]
fn demangle_falls_back_to_heuristics_without_language() {
    expect_unknown(demangle("_NoLanguageHere@8"), "NoLanguageHere", 8);
}
