use tok::text::{clean, find_char, rfind_char, sorted_unique, string_less, underscores_to_spaces};
use tok::titles::{default_title, env_from_filename, label_from_filename};

fn s(text: &str) -> String {
    text.to_string()
}

#[test]
fn relative_steps_at_the_front_are_dropped() {
    assert_eq!(clean(&s("../x")), "x");
    assert_eq!(clean(&s("./x")), "x");
    assert_eq!(clean(&s("x")), "x");
    assert_eq!(clean(&s("..\\x")), "x");
    assert_eq!(clean(&s(".\\x")), "x");
    assert_eq!(clean(&s("././../dir/x.yaml")), "dir/x.yaml");
    assert_eq!(clean(&s("//")), "//");
    assert_eq!(clean(&s("")), "");
    assert_eq!(clean(&s("..")), "..");
    assert_eq!(clean(&s("./")), "");
}

#[test]
fn relative_steps_inside_a_path_stay() {
    assert_eq!(clean(&s("a/../b")), "a/../b");
    assert_eq!(clean(&s(".x")), ".x");
    assert_eq!(clean(&s("..x/y")), "..x/y");
}

#[test]
fn cleaning_twice_changes_nothing_more() {
    for path in ["../../a", "./b/./c", "plain", "..\\..\\d"].iter() {
        let once = clean(&s(path));
        assert_eq!(clean(&once), once);
    }
}

#[test]
fn text_order_is_the_order_of_strings() {
    let words = ["", "a", "ab", "abc", "b", "B", "é", "z", "zz", "a_b", "a b"];
    for a in words.iter() {
        for b in words.iter() {
            assert_eq!(string_less(&s(a), &s(b)), a < b, "{:?} < {:?}", a, b);
        }
    }
}

#[test]
fn sorted_unique_orders_and_drops_repeats() {
    let list = vec![s("pear"), s("apple"), s("fig"), s("apple"), s("pear"), s("date")];
    assert_eq!(sorted_unique(&list), vec![s("apple"), s("date"), s("fig"), s("pear")]);
    assert_eq!(sorted_unique(&vec![]), Vec::<String>::new());
    assert_eq!(sorted_unique(&vec![s("x"), s("x")]), vec![s("x")]);
}

#[test]
fn characters_are_found_by_position() {
    assert_eq!(find_char("thm_a_b.yaml", '_'), Some(3));
    assert_eq!(rfind_char("a.b.yaml", '.'), Some(3));
    assert_eq!(find_char("abc", '_'), None);
    assert_eq!(rfind_char("abc", '.'), None);
    assert_eq!(find_char("é_x", '_'), Some(1));
}

#[test]
fn underscores_become_spaces() {
    assert_eq!(underscores_to_spaces("a_b__c_"), "a b  c ");
    assert_eq!(underscores_to_spaces("_"), " ");
    assert_eq!(underscores_to_spaces(""), "");
    assert_eq!(underscores_to_spaces("plain"), "plain");
}

#[test]
fn kind_is_read_off_the_file_name() {
    assert_eq!(env_from_filename(&s("thm_pythagorean_theorem.yaml")), "thm");
    assert_eq!(env_from_filename(&s("plain.yaml")), "");
    assert_eq!(env_from_filename(&s("_hidden.yaml")), "");
    assert_eq!(env_from_filename(&s("task_x")), "task");
}

#[test]
fn label_is_the_file_name_in_title_case() {
    assert_eq!(label_from_filename(&s("thm_pythagorean_theorem.yaml")), "Pythagorean Theorem");
    assert_eq!(label_from_filename(&s("def_group_of_units.yaml")), "Group of Units");
    assert_eq!(label_from_filename(&s("intro.yaml")), "Intro");
    // Without a full stop nothing is left of the name.
    assert_eq!(label_from_filename(&s("thm_no_extension")), "");
    // Only what follows the last full stop is cut.
    assert_eq!(label_from_filename(&s("def_a.b.yaml")), "A.b");
}

#[test]
fn title_comes_from_the_only_file() {
    assert_eq!(default_title(&vec![s("./thm_fermat_last.yaml")], &s("")), "Fermat Last");
    assert_eq!(default_title(&vec![s("a.yaml")], &s("Given")), "Given");
    assert_eq!(default_title(&vec![s("a.yaml"), s("b.yaml")], &s("")), "");
    assert_eq!(default_title(&vec![], &s("T")), "T");
}
