use envr::text::{indent, render_level, render_levels};
use envr::Envr;
use envr::Updated;

#[test]
fn it_works() {
    let env = Envr::from([(1, "a"), (2, "b"), (3, "c")]);
    println!("{}", env.render());
    let mut env = env.extend();
    env.set(4, "d");
    println!("{}", env.render());
    let mut env = env.extend();
    env.define(5, "e");
    env.set(4, "f");
    println!("{}", env.render());
    let env = env.flatten();
    println!("{}", env.render());
}

#[test]
fn difference() {
    let env1 = Envr::from([("a", 8), ("b", 9), ("c", 10)]);
    let env2 = Envr::from([("a", 9), ("d", 11), ("b", 4)]);
    let diff = env1.difference(&env2);
    println!(
        "env1: {}\nenv2: {}\ndifference: {}",
        env1.render(),
        env2.render(),
        diff.render()
    );
    assert_eq!(diff, Envr::from([(&"c", &10)]))
}

#[test]
fn nested_scopes_lookup_and_size() {
    let env = Envr::from([(1, "a"), (2, "b"), (3, "c")]);
    let mut env = env.extend();
    assert_eq!(env.set(4, "d"), None);
    let mut env = env.extend();
    assert_eq!(env.define(5, "e"), None);
    assert_eq!(env.set(4, "f"), None);
    assert_eq!(env.get(&4), Some(&"f"));
    assert_eq!(env.get(&1), Some(&"a"));
    assert_eq!(env.size(), 6);
    assert_eq!(env.get_locals().len(), 2);
    let parent = env.get_parent().as_ref().unwrap();
    assert_eq!(parent.get(&4), Some(&"d"));
    assert_eq!(parent.size(), 4);
}

#[test]
fn scenario_sizes_before_shadowing() {
    let env = Envr::from([(1, "a"), (2, "b"), (3, "c")]);
    let mut env = env.extend();
    env.set(4, "d");
    let mut env = env.extend();
    assert_eq!(env.define(5, "e"), None);
    assert_eq!(env.size(), 5);
    assert_eq!(env.get(&4), Some(&"d"));
}

#[test]
fn new_is_empty_root() {
    let env: Envr<u64, u64> = Envr::new();
    assert_eq!(env.size(), 0);
    assert!(!env.has_parent());
    assert!(env.get_parent().is_none());
    assert!(env.get_locals().is_empty());
    assert_eq!(env, Envr::default());
}

#[test]
fn new_from_none_and_some() {
    let root: Envr<u64, u64> = Envr::new_from(None);
    assert!(!root.has_parent());
    let mut base: Envr<u64, u64> = Envr::new();
    base.set(1, 10);
    let child = Envr::new_from(Some(base));
    assert!(child.has_parent());
    assert!(child.get_locals().is_empty());
    assert_eq!(child.get(&1), Some(&10));
    assert_eq!(child.size(), 1);
}

#[test]
fn unbound_key_is_absent() {
    let mut env: Envr<u64, u64> = Envr::new();
    env.set(1, 10);
    let env = env.extend();
    assert!(!env.contains(&2));
    assert_eq!(env.get(&2), None);
    assert!(env.contains(&1));
    assert!(!env.contains_local(&1));
}

#[test]
fn define_once_over_the_chain() {
    let mut env: Envr<u64, &str> = Envr::new();
    assert!(!env.contains(&7));
    assert_eq!(env.define(7, "x"), None);
    assert!(env.contains_local(&7));
    assert_eq!(env.get(&7), Some(&"x"));
    assert_eq!(env.define(7, "y"), Some((7, "y")));
    assert_eq!(env.get(&7), Some(&"x"));
    let mut child = env.extend();
    assert_eq!(child.define(7, "z"), Some((7, "z")));
    assert!(!child.contains_local(&7));
    assert_eq!(child.get(&7), Some(&"x"));
    assert_eq!(child.size(), 1);
}

#[test]
fn set_shadows_and_keeps_ancestor() {
    let mut env: Envr<u64, u64> = Envr::new();
    env.set(1, 10);
    let mut child = env.extend();
    assert_eq!(child.set(1, 11), None);
    assert_eq!(child.get_locals().get(&1), Some(&11));
    assert_eq!(child.get(&1), Some(&11));
    let parent = child.get_parent().as_ref().unwrap();
    assert_eq!(parent.get(&1), Some(&10));
    assert_eq!(child.set(1, 12), Some(11));
    assert_eq!(child.get(&1), Some(&12));
    assert_eq!(child.size(), 2);
}

#[test]
fn size_counts_shadowed_keys_per_level() {
    let mut env: Envr<u64, u64> = Envr::new();
    env.set(1, 1);
    env.set(2, 2);
    let mut env = env.extend();
    env.set(1, 3);
    let mut env = env.extend();
    env.set(1, 4);
    env.set(5, 5);
    assert_eq!(env.size(), 5);
}

#[test]
fn extend_then_flatten_merges_levels() {
    let mut env: Envr<u64, u64> = Envr::new();
    env.set(1, 10);
    env.set(2, 20);
    let mut env = env.extend();
    env.set(3, 30);
    let flat = env.flatten();
    assert!(!flat.has_parent());
    assert_eq!(flat, Envr::from([(1, 10), (2, 20), (3, 30)]));
    assert_eq!(flat, Envr::from([(3, 30), (2, 20), (1, 10)]));
    let again = flat.extend().flatten();
    assert_eq!(again, Envr::from([(1, 10), (2, 20), (3, 30)]));
}

#[test]
fn flatten_keeps_outermost_on_shadowed_key() {
    let mut env: Envr<u64, &str> = Envr::new();
    env.set(1, "outer");
    let mut env = env.extend();
    env.set(1, "middle");
    env.set(2, "only");
    let mut env = env.extend();
    env.set(1, "inner");
    assert_eq!(env.get(&1), Some(&"inner"));
    let flat = env.flatten();
    assert_eq!(flat.size(), 2);
    assert_eq!(flat.get(&1), Some(&"outer"));
    assert_eq!(flat.get(&2), Some(&"only"));
}

#[test]
fn from_pairs_last_one_wins() {
    let env = Envr::from([(1, "a"), (2, "b"), (1, "c")]);
    assert_eq!(env.size(), 2);
    assert_eq!(env.get(&1), Some(&"c"));
    assert_eq!(env.get(&2), Some(&"b"));
    let env = Envr::from(vec![(1, "a"), (1, "b"), (1, "c"), (2, "z")]);
    assert_eq!(env.get(&1), Some(&"c"));
    assert_eq!(env.size(), 2);
    let empty: Envr<u64, u64> = Envr::from(Vec::new());
    assert_eq!(empty.size(), 0);
}

#[test]
fn difference_over_chains() {
    let mut this: Envr<u64, u64> = Envr::new();
    this.set(1, 10);
    this.set(2, 20);
    let mut this = this.extend();
    this.set(1, 11);
    this.set(3, 30);
    let mut that: Envr<u64, u64> = Envr::new();
    that.set(2, 0);
    let mut that = that.extend();
    that.set(4, 0);
    let diff = this.difference(&that);
    assert!(!diff.has_parent());
    assert_eq!(diff.size(), 2);
    assert_eq!(diff.get(&&1), Some(&&11));
    assert_eq!(diff.get(&&3), Some(&&30));
    assert!(!diff.contains(&&2));
    assert!(!diff.contains(&&4));
    let none = this.difference(&this);
    assert_eq!(none.size(), 0);
}

#[test]
fn stack_lists_values_innermost_first() {
    let mut env: Envr<&str, u64> = Envr::new();
    env.set("x", 1);
    env.set("y", 7);
    let mut env = env.extend();
    env.set("x", 2);
    let mut env = env.extend();
    env.set("x", 3);
    env.set("z", 9);
    let stacks = env.stack();
    assert_eq!(stacks.len(), 3);
    assert_eq!(stacks.get(&"x"), Some(&vec![&3, &2, &1]));
    assert_eq!(stacks.get(&"y"), Some(&vec![&7]));
    assert_eq!(stacks.get(&"z"), Some(&vec![&9]));
}

#[test]
fn keyset_has_each_key_once() {
    let mut env: Envr<u64, u64> = Envr::new();
    env.set(1, 1);
    env.set(2, 2);
    let mut env = env.extend();
    env.set(1, 3);
    env.set(4, 4);
    let keys = env.keyset();
    assert_eq!(keys.len(), 3);
    assert!(keys.contains(&1));
    assert!(keys.contains(&2));
    assert!(keys.contains(&4));
    assert!(!keys.contains(&3));
    let empty: Envr<u64, u64> = Envr::new();
    assert!(empty.keyset().is_empty());
}

#[test]
fn keylist_has_one_iterator_per_level() {
    let mut env: Envr<u64, u64> = Envr::new();
    env.set(1, 1);
    env.set(2, 2);
    let mut env = env.extend();
    env.set(1, 3);
    let env = env.extend();
    let list = env.keylist();
    assert_eq!(list.len(), 3);
    let mut counts: Vec<usize> = Vec::new();
    for keys in list {
        let mut level: Vec<u64> = keys.copied().collect();
        level.sort();
        counts.push(level.len());
        if level.len() == 2 {
            assert_eq!(level, vec![1, 2]);
        }
        if level.len() == 1 {
            assert_eq!(level, vec![1]);
        }
    }
    assert_eq!(counts, vec![0, 1, 2]);
}

#[test]
fn get_mut_reaches_into_ancestors() {
    let mut env: Envr<u64, u64> = Envr::new();
    env.set(1, 10);
    let mut env = env.extend();
    env.set(2, 20);
    match env.get_mut(&1) {
        Some(slot) => {
            assert_eq!(*slot, 10);
            *slot = 15;
        },
        None => panic!("key 1 is bound"),
    }
    assert!(!env.contains_local(&1));
    assert_eq!(env.get(&1), Some(&15));
    assert_eq!(env.get_parent().as_ref().unwrap().get(&1), Some(&15));
    match env.get_mut(&2) {
        Some(slot) => *slot = 25,
        None => panic!("key 2 is bound"),
    }
    assert_eq!(env.get_locals().get(&2), Some(&25));
    assert!(env.get_mut(&3).is_none());
    assert_eq!(env.size(), 2);
}

#[test]
fn update_overwrites_where_bound() {
    let mut env: Envr<u64, &str> = Envr::new();
    env.set(1, "a");
    let mut env = env.extend();
    env.set(1, "b");
    match env.update(&1, "c") {
        Updated::Left(stored) => assert_eq!(*stored, "c"),
        Updated::Right(_) => panic!("key 1 is bound"),
    }
    assert_eq!(env.get(&1), Some(&"c"));
    assert_eq!(env.get_parent().as_ref().unwrap().get(&1), Some(&"a"));
    match env.update(&9, "z") {
        Updated::Left(_) => panic!("key 9 is not bound"),
        Updated::Right(unused) => assert_eq!(unused, "z"),
    }
    assert!(!env.contains(&9));
    assert_eq!(env.size(), 2);
}

#[test]
fn update_lands_in_the_ancestor_that_binds() {
    let mut env: Envr<u64, u64> = Envr::new();
    env.set(1, 10);
    let mut env = env.extend();
    match env.update(&1, 99) {
        Updated::Left(stored) => assert_eq!(*stored, 99),
        Updated::Right(_) => panic!("key 1 is bound"),
    }
    assert!(!env.contains_local(&1));
    assert_eq!(env.get_parent().as_ref().unwrap().get_locals().get(&1), Some(&99));
}

#[test]
fn extension_copies_and_leaves_the_receiver() {
    let mut env: Envr<u64, u64> = Envr::new();
    env.set(1, 10);
    let mut child = env.extension();
    child.set(1, 11);
    match child.update(&1, 12) {
        Updated::Left(stored) => assert_eq!(*stored, 12),
        Updated::Right(_) => panic!("key 1 is bound"),
    }
    assert_eq!(env.get(&1), Some(&10));
    assert_eq!(env.size(), 1);
    assert_eq!(child.size(), 2);
    assert_eq!(child.get_parent().as_ref().unwrap().as_ref(), &env);
    let copy = env.clone();
    assert_eq!(copy, env);
}

#[test]
fn equality_compares_every_level() {
    let a = Envr::from([(1, 1)]).extend();
    let b = Envr::from([(1, 1)]).extend();
    let c = Envr::from([(1, 2)]).extend();
    let d = Envr::from([(1, 1)]);
    assert_eq!(a, b);
    assert_ne!(a, c);
    assert_ne!(a, d);
}

#[test]
fn render_nests_and_indents_the_parent() {
    let env = Envr::from([(1, "a")]);
    assert_eq!(env.render(), "{\n  1 = a,\n}");
    let mut env = env.extend();
    env.set(2, "b");
    assert_eq!(env.render(), "{\n  2 = b,\n  parent = {\n    1 = a,\n  }\n}");
    let mut env = env.extend();
    env.set(3, "c");
    assert_eq!(
        env.render(),
        "{\n  3 = c,\n  parent = {\n    2 = b,\n    parent = {\n      1 = a,\n    }\n  }\n}"
    );
}

#[test]
fn render_of_empty_levels() {
    let env: Envr<u64, u64> = Envr::new();
    assert_eq!(env.render(), "{\n}");
    let env = env.extend();
    assert_eq!(env.render(), "{\n  parent = {\n  }\n}");
}

#[test]
fn render_lists_every_local_binding() {
    let env = Envr::from([(1, "a"), (2, "b")]);
    let text = env.render();
    assert!(text == "{\n  1 = a,\n  2 = b,\n}" || text == "{\n  2 = b,\n  1 = a,\n}");
}

#[test]
fn indent_pads_after_line_breaks() {
    assert_eq!(indent(""), "");
    assert_eq!(indent("abc"), "abc");
    assert_eq!(indent("a\nb"), "a\n  b");
    assert_eq!(indent("{\n  x = 1,\n}"), "{\n    x = 1,\n  }");
    assert_eq!(indent("\n"), "\n  ");
}

#[test]
fn render_level_writes_one_line_per_entry() {
    let none: Vec<(String, String)> = Vec::new();
    assert_eq!(render_level(&none), "");
    let entries = vec![
        (String::from("x"), String::from("1")),
        (String::from("y"), String::from("2")),
    ];
    assert_eq!(render_level(&entries), "  x = 1,\n  y = 2,\n");
}

#[test]
fn render_levels_from_given_text() {
    let none: Vec<Vec<(String, String)>> = Vec::new();
    assert_eq!(render_levels(&none), "");
    let levels = vec![
        vec![(String::from("x"), String::from("1")), (String::from("y"), String::from("2"))],
        vec![],
        vec![(String::from("x"), String::from("0"))],
    ];
    assert_eq!(
        render_levels(&levels),
        "{\n  x = 1,\n  y = 2,\n  parent = {\n    parent = {\n      x = 0,\n    }\n  }\n}"
    );
}

#[test]
fn render_indents_line_breaks_inside_values() {
    let outer = Envr::from([(1, "a\nb")]);
    assert_eq!(outer.render(), "{\n  1 = a\nb,\n}");
    let env = outer.extend();
    assert_eq!(env.render(), "{\n  parent = {\n    1 = a\n  b,\n  }\n}");
}
