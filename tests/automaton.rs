use sam_graph::config::Config;
use sam_graph::draw::{build_graph, split_parts, DrawError};
use sam_graph::sam::{union_ids, SAMPool};

fn chars(s: &str) -> Vec<char> {
    s.chars().collect()
}

fn walk(pool: &SAMPool, s: &str) -> Option<usize> {
    let mut v = 0usize;
    for c in s.chars() {
        v = pool.find_next(v, c)?;
    }
    Some(v)
}

fn sorted(v: &Vec<i32>) -> Vec<i32> {
    let mut r = v.clone();
    r.sort();
    r
}

#[test]
fn scenario_ab_then_b() {
    let mut pool = SAMPool::new();
    pool.join_string(&chars("ab"), 0);
    pool.join_string(&chars("b"), 1);
    pool.collect();
    let ab = walk(&pool, "ab").unwrap();
    assert_eq!(sorted(&pool.states[ab].owners), vec![0]);
    let b = walk(&pool, "b").unwrap();
    assert_eq!(sorted(&pool.states[b].owners), vec![0, 1]);
}

#[test]
fn scenario_empty_string() {
    let mut pool = SAMPool::new();
    pool.join_string(&chars(""), 0);
    assert_eq!(pool.states.len(), 1);
    assert_eq!(pool.states[0].direct_owners, vec![0]);
}

#[test]
fn scenario_aa() {
    let mut pool = SAMPool::new();
    pool.join_string(&chars("aa"), 0);
    assert_eq!(pool.states.len(), 3);
    assert_eq!(pool.states[walk(&pool, "a").unwrap()].len, 1);
    assert_eq!(pool.states[walk(&pool, "aa").unwrap()].len, 2);
}

#[test]
fn clone_on_shared_suffix() {
    let mut pool = SAMPool::new();
    pool.join_string(&chars("ab"), 0);
    let before = pool.states.len();
    pool.join_string(&chars("b"), 1);
    assert_eq!(pool.states.len(), before + 1);
    let b = walk(&pool, "b").unwrap();
    assert!(pool.states[b].is_clone);
    assert_eq!(pool.states[b].len, 1);
}

#[test]
fn substrings_are_recognized() {
    let words = ["abcbc", "bcd", "aab"];
    let mut pool = SAMPool::new();
    for (i, w) in words.iter().enumerate() {
        pool.join_string(&chars(w), i as i32);
    }
    for w in words.iter() {
        let cs = chars(w);
        for i in 0..=cs.len() {
            for j in i..=cs.len() {
                let sub: String = cs[i..j].iter().collect();
                assert!(walk(&pool, &sub).is_some(), "{}", sub);
            }
        }
    }
    assert!(walk(&pool, "ca").is_none());
    assert!(walk(&pool, "dd").is_none());
    assert!(walk(&pool, "bcbd").is_none());
}

#[test]
fn state_count_bound() {
    for w in ["a", "ab", "abcbc", "aaaa", "abbb", "abcabcab"] {
        let mut pool = SAMPool::new();
        pool.join_string(&chars(w), 0);
        assert!(pool.states.len() <= 2 * w.chars().count(), "{}", w);
    }
}

#[test]
fn same_string_twice_shares_states() {
    let mut pool = SAMPool::new();
    pool.join_string(&chars("abcab"), 0);
    let n = pool.states.len();
    pool.join_string(&chars("abcab"), 1);
    assert_eq!(pool.states.len(), n);
    pool.collect();
    let s = chars("abcab");
    for k in 0..=s.len() {
        let pre: String = s[..k].iter().collect();
        let v = walk(&pool, &pre).unwrap();
        assert_eq!(sorted(&pool.states[v].owners), vec![0, 1]);
    }
}

#[test]
fn owners_grow_along_links() {
    let mut pool = SAMPool::new();
    pool.join_string(&chars("abab"), 3);
    pool.join_string(&chars("bba"), 5);
    pool.join_string(&chars("c"), 7);
    pool.collect();
    for v in 1..pool.states.len() {
        let l = pool.states[v].link.unwrap();
        for x in pool.states[v].owners.iter() {
            assert!(pool.states[l].owners.contains(x));
        }
    }
    assert_eq!(sorted(&pool.states[0].owners), vec![3, 5, 7]);
}

#[test]
fn serialization_is_deterministic() {
    let mut pool = SAMPool::new();
    pool.join_string(&chars("abcbc"), 0);
    pool.join_string(&chars("cb"), 1);
    pool.collect();
    assert_eq!(pool.generate_graph(), pool.generate_graph());
}

#[test]
fn graph_of_empty_request() {
    let g = build_graph(&chars(""), 50).unwrap();
    assert_eq!(
        g,
        "digraph SAM {\n  rankdir=LR;\n  0 [label=\"0\\n0\", shape=doublecircle, style=filled, fillcolor=lightyellow];\n}\n"
    );
}

#[test]
fn graph_of_single_symbol() {
    let mut pool = SAMPool::new();
    pool.join_string(&chars("a"), 0);
    pool.join_string(&chars("a"), 1);
    pool.collect();
    assert_eq!(
        pool.generate_graph(),
        "digraph SAM {\n  rankdir=LR;\n  0 [label=\"0\\n0\", shape=doublecircle, style=filled, fillcolor=lightblue];\n  0 -> 1 [label=\"a\"];\n  1 [label=\"1\\n1\", shape=circle, style=filled, fillcolor=lightblue];\n  1 -> 0 [style=dashed, color=gray];\n}\n"
    );
}

#[test]
fn graph_marks_clones_and_escapes_symbols() {
    let mut pool = SAMPool::new();
    pool.join_string(&chars("x\""), 0);
    pool.join_string(&chars("\""), 1);
    let g = pool.generate_graph();
    assert!(g.contains("[label=\"\\\"\"]"));
    assert!(g.contains("shape=circle, color=red];"));
}

#[test]
fn graph_numbers_of_two_digits() {
    let mut pool = SAMPool::new();
    pool.join_string(&chars("abcdefghijkl"), 0);
    let g = pool.generate_graph();
    assert!(g.contains("  12 [label=\"12\\n12\", shape=circle];"));
    assert!(g.contains("  11 -> 12 [label=\"l\"];"));
}

#[test]
fn request_too_long() {
    assert_eq!(build_graph(&chars("abcdef"), 5), Err(DrawError::TooLong));
    assert!(build_graph(&chars("abcde"), 5).is_ok());
    assert!(build_graph(&chars("abcdef"), -1).is_ok());
}

#[test]
fn request_pieces() {
    let parts = split_parts(&chars("a|bc||d"));
    assert_eq!(parts, vec![chars("a"), chars("bc"), chars(""), chars("d")]);
    assert_eq!(split_parts(&chars("")), vec![chars("")]);
}

#[test]
fn request_ids_follow_pieces() {
    let g = build_graph(&chars("ab|b"), 50).unwrap();
    let mut pool = SAMPool::new();
    pool.join_string(&chars("ab"), 0);
    pool.join_string(&chars("b"), 1);
    pool.collect();
    assert_eq!(g, pool.generate_graph());
}

#[test]
fn id_union() {
    let mut a = vec![1, 2];
    union_ids(&mut a, &vec![2, 3, 3, 1]);
    assert_eq!(a, vec![1, 2, 3]);
}

#[test]
fn default_config() {
    let c = Config::default();
    assert_eq!(c.bind_host, "127.0.0.1");
    assert_eq!(c.bind_port, 90);
    assert_eq!(c.dot_executable, "dot");
    assert_eq!(c.log_level, "info");
    assert_eq!(c.max_len, 50);
    assert_eq!(c.max_count_sametime, 2);
    assert_eq!(c.render_timeout, 5000);
}

#[test]
fn join_returns_state_of_whole_string() {
    let mut pool = SAMPool::new();
    let r = pool.join_string(&chars("abcab"), 4);
    assert_eq!(pool.states[r].len, 5);
    assert_eq!(walk(&pool, "abcab"), Some(r));
    assert!(pool.states[r].direct_owners.contains(&4));
    let e = pool.join_string(&chars(""), 9);
    assert_eq!(e, 0);
}

#[test]
fn transitions_sorted_by_symbol() {
    let mut pool = SAMPool::new();
    pool.join_string(&chars("zyxa"), 0);
    let syms: Vec<char> = pool.states[0].next.iter().map(|e| e.0).collect();
    assert_eq!(syms, vec!['a', 'x', 'y', 'z']);
    let g = pool.generate_graph();
    let a = g.find("0 -> ").unwrap();
    assert!(g[a..].starts_with("0 -> 4 [label=\"a\"]"));
}

#[test]
fn join_records_only_its_id() {
    let mut pool = SAMPool::new();
    pool.join_string(&chars("abab"), 3);
    let before: Vec<Vec<i32>> = pool.states.iter().map(|st| sorted(&st.direct_owners)).collect();
    pool.join_string(&chars("bab"), 8);
    for (v, st) in pool.states.iter().enumerate() {
        for x in st.direct_owners.iter() {
            assert!(*x == 8 || (v < before.len() && before[v].contains(x)));
        }
    }
    for (v, old) in before.iter().enumerate() {
        for x in old.iter() {
            assert!(pool.states[v].direct_owners.contains(x));
        }
    }
    pool.collect();
    assert_eq!(sorted(&pool.states[0].owners), vec![3, 8]);
}
