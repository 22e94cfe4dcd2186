use ghostsnap::glob::glob_match;

#[test]
fn test_glob_match() {
    assert!(glob_match("*", "anything"));
    assert!(glob_match("test*", "test123"));
    assert!(glob_match("*prod", "myprod"));
    assert!(glob_match("*prod*", "myproduction"));
    assert!(!glob_match("test*", "best"));
    assert!(!glob_match("*prod", "production"));
}

#[test]
fn patterns_without_a_star_match_themselves_only() {
    assert!(glob_match("abc", "abc"));
    assert!(!glob_match("abc", "abcd"));
    assert!(!glob_match("abc", "ab"));
    assert!(glob_match("", ""));
    assert!(!glob_match("", "a"));
}

#[test]
fn parts_between_stars_are_found_in_order() {
    assert!(glob_match("a*b*c", "a-b-c"));
    assert!(glob_match("a*b*c", "abc"));
    assert!(!glob_match("a*b*c*d", "a-c-b-d"));
    assert!(glob_match("a*b*c*d", "a-b-c-d"));
    assert!(glob_match("*a*b*", "xxaxxbxx"));
    assert!(!glob_match("*a*b*", "xxbxxaxx"));
    assert!(glob_match("**", "anything"));
    assert!(glob_match("**", ""));
    assert!(glob_match("a**b", "ab"));
    assert!(glob_match("*ä*", "xäx"));
    assert!(!glob_match("x*ab*ab*y", "xaby"));
    assert!(glob_match("x*ab*ab*y", "xababy"));
    // the middle parts do not overlap
    assert!(!glob_match("*aba*aba*", "ababa"));
    assert!(glob_match("*aba*aba*", "abaaba"));
}

#[test]
fn the_last_part_is_held_against_the_end_only() {
    // the end may overlap what the parts before it matched
    assert!(glob_match("a*a", "a"));
    assert!(glob_match("ab*bc", "abc"));
    assert!(!glob_match("ab*bc", "ab"));
    assert!(glob_match("a*b*b", "ab"));
}
