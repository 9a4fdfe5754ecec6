use thompson_regex::compile::NFAFragment;
use thompson_regex::syntax::{insert_concat_operator, is_operator, operator_precedence, regexp_to_postfix};
use thompson_regex::matcher::dfs;
use thompson_regex::{is_match, pattern_is_valid, re, regex_match, try_regex_match};

#[test]
fn test_regex_match() {
    assert_eq!(true, regex_match("(zz)+", "zz"));
    assert_eq!(true, regex_match("(x|y)*z", "xyxyyyxxxz"));
    assert_eq!(false, regex_match("(x|y)*z+", "xy"));
    assert_eq!(true, regex_match("(x|y)*z+", "xyzzz"));
    assert_eq!(true, regex_match("(1|2|3|4|5|6|7|8|9)+", "1423"));
    assert_eq!(false, regex_match("(1|2|3|4|5|6|7|8|9)+", "123abc"));
    assert_eq!(true, regex_match("a?", ""));
    assert_eq!(true, regex_match("a?", "a"));
    assert_eq!(false, regex_match("a?", "aa"));
    assert_eq!(true, regex_match("hell(a|o)?", "hello"));
    assert_eq!(true, regex_match("(a|b)?", "a"));
}

#[test]
fn literal_concatenation_matches_whole_input() {
    assert!(regex_match("ab", "ab"));
    assert!(!regex_match("ab", "a"));
    assert!(!regex_match("ab", "abc"));
}

#[test]
fn alternation_takes_either_side() {
    assert!(regex_match("x|y", "x"));
    assert!(regex_match("x|y", "y"));
    assert!(!regex_match("x|y", "z"));
}

#[test]
fn star_admits_empty_and_many() {
    assert!(regex_match("a*", ""));
    assert!(regex_match("a*", "aaaa"));
    assert!(!regex_match("a*", "aab"));
}

#[test]
fn plus_needs_one_repetition() {
    assert!(!regex_match("a+", ""));
    assert!(regex_match("a+", "a"));
    assert!(regex_match("a+", "aaa"));
}

#[test]
fn optional_admits_zero_or_one() {
    assert!(regex_match("a?", ""));
    assert!(regex_match("a?", "a"));
    assert!(!regex_match("a?", "aa"));
}

#[test]
fn group_with_repetition() {
    assert!(regex_match("(ab)+", "abab"));
    assert!(!regex_match("(ab)+", "aba"));
}

#[test]
fn combined_star_and_plus() {
    assert!(regex_match("(x|y)*z+", "xyzzz"));
    assert!(!regex_match("(x|y)*z+", "xy"));
}

#[test]
fn digit_alternation_repeated() {
    assert!(regex_match("(1|2|3)+", "123"));
    assert!(!regex_match("(1|2|3)+", "1a3"));
}

#[test]
fn same_inputs_same_answer() {
    for (p, s) in [("(x|y)*z+", "xyzzz"), ("(ab)+", "aba"), ("a?", "")] {
        assert_eq!(regex_match(p, s), regex_match(p, s));
    }
}

#[test]
fn compiling_twice_gives_same_answers() {
    let (f1, a1) = re(b"(x|y)*z+");
    let (f2, a2) = re(b"(x|y)*z+");
    assert_eq!(f1.start, f2.start);
    assert_eq!(f1.out, f2.out);
    for s in [&b"xyzzz"[..], b"xy", b"z", b"", b"yxz"] {
        assert_eq!(is_match(&a1, f1, s), is_match(&a2, f2, s));
    }
    assert!(is_match(&a1, f1, b"xyzzz"));
    assert!(!is_match(&a2, f2, b"xy"));
}

#[test]
fn concat_markers_inserted() {
    assert_eq!(insert_concat_operator(b"ab"), b"a.b".to_vec());
    assert_eq!(insert_concat_operator(b"(x|y)*z+"), b"(x|y)*.z+".to_vec());
    assert_eq!(insert_concat_operator(b"hell(a|o)?"), b"h.e.l.l.(a|o)?".to_vec());
    assert_eq!(insert_concat_operator(b""), Vec::<u8>::new());
}

#[test]
fn postfix_order() {
    assert_eq!(regexp_to_postfix(b"(x|y)*.z+"), b"xy|*z+.".to_vec());
    assert_eq!(regexp_to_postfix(b"a.b"), b"ab.".to_vec());
    // alternation binds tighter than concatenation
    assert_eq!(regexp_to_postfix(b"a.b|c"), b"abc|.".to_vec());
    assert_eq!(regexp_to_postfix(b"a|b.c"), b"ab|c.".to_vec());
}

#[test]
fn alternation_binds_tighter_than_concatenation() {
    assert!(regex_match("ab|cd", "abd"));
    assert!(regex_match("ab|cd", "acd"));
    assert!(!regex_match("ab|cd", "ab"));
}

#[test]
fn precedence_and_operators() {
    assert_eq!(operator_precedence(b'.'), 0);
    assert_eq!(operator_precedence(b'|'), 1);
    assert_eq!(operator_precedence(b'+'), 2);
    assert_eq!(operator_precedence(b'?'), 2);
    assert_eq!(operator_precedence(b'*'), 2);
    assert_eq!(operator_precedence(b'a'), 0);
    for c in [b'|', b'+', b'.', b'*', b'?'] {
        assert!(is_operator(c));
    }
    for c in [b'a', b'(', b')', b'1'] {
        assert!(!is_operator(c));
    }
}

#[test]
fn malformed_patterns_are_refused() {
    assert!(!pattern_is_valid(b""));
    assert!(!pattern_is_valid(b"*"));
    assert!(!pattern_is_valid(b"a|"));
    assert!(pattern_is_valid(b"a|b"));
    assert_eq!(try_regex_match("", "a"), None);
    assert_eq!(try_regex_match("+a", "a"), None);
    assert_eq!(try_regex_match("a+", "aa"), Some(true));
    assert_eq!(try_regex_match("a+", "b"), Some(false));
}

#[test]
fn input_bytes_read_modulo_128() {
    let (f, a) = re(b"a");
    assert!(is_match(&a, f, &[b'a']));
    assert!(is_match(&a, f, &[b'a' + 128]));
    assert!(!is_match(&a, f, &[b'b']));
    let frag: NFAFragment = f;
    assert!(frag.start != frag.out);
}

#[test]
fn compiled_exit_is_the_only_accepting_state() {
    for p in [&b"ab"[..], b"(x|y)*z+", b"a?", b"(1|2|3)+", b"hell(a|o)?"] {
        let (f, a) = re(p);
        let accepting: Vec<usize> = a.iter().filter(|(_, s)| s.is_end).map(|(id, _)| id.index()).collect();
        assert_eq!(accepting, vec![f.out]);
    }
}

#[test]
fn dfs_accepts_with_long_foreign_visited_list() {
    let (f, a) = re(b"a");
    let mut visited: Vec<usize> = vec![99, 99, 99, 99, 99];
    assert!(dfs(&a, f.out, b"a", 1, &mut visited));
    assert!(visited.contains(&f.out));
    assert_eq!(&visited[..5], &[99, 99, 99, 99, 99]);
    let mut visited: Vec<usize> = vec![7, 7, 7];
    assert!(dfs(&a, f.start, b"a", 0, &mut visited));
}
